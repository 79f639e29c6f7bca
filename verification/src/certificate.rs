//! Certificates of constructions: what was checked, what was routed, and what is left to
//! prove.

use crate::compiler::{
    CompiledConstruction, ConstructionModel, Endpoint, EndpointModel, InstanceId, InstanceModel, MacroInstance,
    MacroKind, MacroModel, Net, NetModel, PortRef,
};
use crate::contracts::{
    logical_contract_for_instance, validate_logical_contract_library, validate_routing_contract_library, ContractModel,
    ContractPortRole, ContractValidationReport, GadgetContract, ValidationError, ValidationFailure, ValidationModel,
};
use crate::inputs::{certify_input_boundary_encoding, InputBoundaryCertificate, InputError, InputFailure};
use crate::interfaces::{enumerate_router_interface_basis, BasisError, InterfaceBasisCertificate, RouterInterfaceBasis};
use crate::lanes::Lanes;
use crate::library::{published_connector_specs, published_spec_named, Alignment, PublishedSpec};
use crate::padding::{certify_dead_boundary_padding, DeadBoundaryPaddingCertificate, PaddingError, PaddingFailure};
use crate::published::PatternFiles;
use crate::routing::{
    construct_routing_witness, macro_port_dir, RouteDir, RoutingError, RoutingFailure, RoutingWitness,
};
use crate::scan::{split_lines, string_of};
use crate::text::{chars_of, push_bool, push_usize, quoted, same_text};
use crate::circuit;
use crate::compiler;
use crate::contracts;
use crate::inputs;
use crate::interfaces;
use crate::lanes;
use crate::library;
use crate::padding;
use crate::routing;
use crate::scan;
use crate::text;
use vstd::prelude::*;

verus! {

/// An instance whose pattern keeps its contract.
#[derive(Debug, Clone, PartialEq, Eq)]
pub struct CertifiedInstance {
    pub id: InstanceId,
    pub kind: String,
    pub published_spec_name: &'static str,
    pub column: usize,
    pub row: usize,
}

/// A net from a port that drives to one that reads.
#[derive(Debug, Clone, PartialEq, Eq)]
pub struct CertifiedNet {
    pub from: Endpoint,
    pub to: PortRef,
}

/// An outside input has to be anchored at a port.
#[derive(Debug, Clone, PartialEq, Eq)]
pub struct InputAnchorObligation {
    pub variable: String,
    pub target: PortRef,
    pub target_spec_name: &'static str,
    pub target_dir: RouteDir,
}

/// Two ports have to be joined by a path.
#[derive(Debug, Clone, PartialEq, Eq)]
pub struct NetRouteObligation {
    pub from: PortRef,
    pub to: PortRef,
    pub source_spec_name: &'static str,
    pub target_spec_name: &'static str,
    pub source_dir: RouteDir,
    pub target_dir: RouteDir,
}

/// Which patterns for paths the library has. The pairs of phases that connectors join,
/// from west to east, are listed in ascending order.
#[derive(Debug, Clone, PartialEq, Eq)]
pub struct RoutingBasisCoverage {
    pub straight_wires_present: bool,
    pub turn_tiles_present: bool,
    pub crossing_present: bool,
    pub always_one_present: bool,
    pub connector_phase_pairs: Vec<(i8, i8)>,
}

/// All pairs of phases, in ascending order.
pub open spec fn all_phase_pairs() -> Seq<(i8, i8)> {
    seq![
        (-1i8, -1i8),
        (-1i8, 0i8),
        (-1i8, 1i8),
        (0i8, -1i8),
        (0i8, 0i8),
        (0i8, 1i8),
        (1i8, -1i8),
        (1i8, 0i8),
        (1i8, 1i8),
    ]
}

fn every_phase_pair() -> (pairs: Vec<(i8, i8)>)
    ensures
        pairs@ == all_phase_pairs(),
{
    let pairs: Vec<(i8, i8)> = vec![
        (-1, -1),
        (-1, 0),
        (-1, 1),
        (0, -1),
        (0, 0),
        (0, 1),
        (1, -1),
        (1, 0),
        (1, 1),
    ];
    assert(pairs@ =~= all_phase_pairs());
    pairs
}

/// The pair comes before the other.
pub open spec fn pair_less(a: (i8, i8), b: (i8, i8)) -> bool {
    a.0 < b.0 || (a.0 == b.0 && a.1 < b.1)
}

/// The pairs ascend.
pub open spec fn pairs_ascend(pairs: Seq<(i8, i8)>) -> bool {
    forall|i: int, j: int| #![trigger pairs[i], pairs[j]] 0 <= i < j < pairs.len() ==> pair_less(pairs[i], pairs[j])
}

/// The alignment joins the phases, from west to east.
pub open spec fn aligns(align: Option<Alignment>, pair: (i8, i8)) -> bool {
    align matches Some(ends) && ends.2 == Some(pair.0) && ends.0 == Some(pair.1)
}

/// Some connector joins the phases, from west to east.
pub open spec fn joins_phases(pair: (i8, i8)) -> bool {
    joined_among(pair, library::connector_table().len() as int)
}

/// One of the first `k` connectors joins the phases.
pub open spec fn joined_among(pair: (i8, i8), k: int) -> bool {
    exists|i: int| 0 <= i < k && aligns((#[trigger] library::connector_table()[i]).align, pair)
}

impl RoutingBasisCoverage {
    /// Straight wires, turns and a crossing are there, and connectors for all phases.
    pub open spec fn rectilinear_complete(&self) -> bool {
        self.straight_wires_present && self.turn_tiles_present && self.crossing_present
            && self.connector_phase_pairs@ == all_phase_pairs()
    }

    /// Whether straight wires, turns and a crossing are there, and connectors for all
    /// phases.
    pub fn is_rectilinear_complete(&self) -> (complete: bool)
        ensures
            complete == self.rectilinear_complete(),
    {
        let expected: Vec<(i8, i8)> = every_phase_pair();
        if self.connector_phase_pairs.len() != expected.len() {
            return false;
        }
        let mut k: usize = 0;
        while k < expected.len()
            invariant
                k <= expected@.len(),
                expected@ == all_phase_pairs(),
                self.connector_phase_pairs@.len() == expected@.len(),
                forall|i: int| 0 <= i < k ==> self.connector_phase_pairs@[i] == expected@[i],
            decreases expected.len() - k,
        {
            let pair: (i8, i8) = self.connector_phase_pairs[k];
            if pair.0 != expected[k].0 || pair.1 != expected[k].1 {
                return false;
            }
            k += 1;
        }
        assert(self.connector_phase_pairs@ =~= expected@);
        self.straight_wires_present && self.turn_tiles_present && self.crossing_present
    }
}

/// What the library has for paths.
pub open spec fn is_coverage(coverage: RoutingBasisCoverage) -> bool {
    &&& coverage.straight_wires_present == (library::spec_named("horizontal wire tile"@) is Some && library::spec_named(
        "vertical wire tile"@,
    ) is Some)
    &&& coverage.turn_tiles_present == (library::spec_named("NE turn tile"@) is Some && library::spec_named(
        "NW turn tile"@,
    ) is Some && library::spec_named("SW turn tile"@) is Some && library::spec_named("SE turn tile"@) is Some)
    &&& coverage.crossing_present == (library::spec_named("crossing tile"@) is Some)
    &&& coverage.always_one_present == (library::spec_named("always-1 tile"@) is Some)
    &&& pairs_ascend(coverage.connector_phase_pairs@)
    &&& forall|pair: (i8, i8)| #[trigger] coverage.connector_phase_pairs@.contains(pair) <==> joins_phases(pair)
}

/// Adds a pair in its place.
fn insert_pair(pairs: &mut Vec<(i8, i8)>, pair: (i8, i8))
    requires
        pairs_ascend(old(pairs)@),
    ensures
        pairs_ascend(final(pairs)@),
        forall|p: (i8, i8)| #[trigger] final(pairs)@.contains(p) <==> old(pairs)@.contains(p) || p == pair,
{
    let ghost before = pairs@;
    let mut k: usize = 0;
    while k < pairs.len()
        invariant
            k <= pairs@.len(),
            pairs@ == before,
            before == old(pairs)@,
            pairs_ascend(before),
            forall|i: int| 0 <= i < k ==> pair_less(#[trigger] before[i], pair),
        decreases pairs.len() - k,
    {
        let other: (i8, i8) = pairs[k];
        if other.0 == pair.0 && other.1 == pair.1 {
            assert(before[k as int] == pair);
            return;
        }
        if pair.0 < other.0 || (pair.0 == other.0 && pair.1 < other.1) {
            pairs.insert(k, pair);
            proof {
                let after = pairs@;
                assert(after == before.insert(k as int, pair));
                assert forall|i: int, j: int| #![trigger after[i], after[j]] 0 <= i < j < after.len() implies pair_less(
                    after[i],
                    after[j],
                ) by {
                    let a = if i < k { before[i] } else { before[i - 1] };
                    let b = if j < k { before[j] } else { before[j - 1] };
                    let at = before[k as int];
                }
                assert forall|p: (i8, i8)| #[trigger] after.contains(p) <==> before.contains(p) || p == pair by {
                    if before.contains(p) {
                        let i = choose|i: int| 0 <= i < before.len() && before[i] == p;
                        if i < k {
                            assert(after[i] == p);
                        } else {
                            assert(after[i + 1] == p);
                        }
                    }
                    if p == pair {
                        assert(after[k as int] == p);
                    }
                    if after.contains(p) {
                        let i = choose|i: int| 0 <= i < after.len() && after[i] == p;
                        if i < k {
                            assert(before[i] == p);
                        } else if i > k {
                            assert(before[i - 1] == p);
                        }
                    }
                }
            }
            return;
        }
        k += 1;
    }
    pairs.push(pair);
    proof {
        let after = pairs@;
        assert forall|p: (i8, i8)| #[trigger] after.contains(p) <==> before.contains(p) || p == pair by {
            if before.contains(p) {
                let i = choose|i: int| 0 <= i < before.len() && before[i] == p;
                assert(after[i] == p);
            }
            if p == pair {
                assert(after[before.len() as int] == p);
            }
            if after.contains(p) {
                let i = choose|i: int| 0 <= i < after.len() && after[i] == p;
                if i < before.len() {
                    assert(before[i] == p);
                }
            }
        }
    }
}

fn has_spec(name: &str) -> (found: bool)
    ensures
        found == (library::spec_named(name@) is Some),
{
    match published_spec_named(name) {
        Some(_) => true,
        None => false,
    }
}

/// What the library has for paths.
pub fn routing_basis_coverage() -> (coverage: RoutingBasisCoverage)
    ensures
        is_coverage(coverage),
{
    let connectors: Vec<PublishedSpec> = published_connector_specs();
    let ghost table = library::connector_table();
    let mut pairs: Vec<(i8, i8)> = Vec::new();
    let mut k: usize = 0;
    while k < connectors.len()
        invariant
            k <= connectors@.len(),
            table == library::connector_table(),
            library::spec_models(connectors@) == table,
            pairs_ascend(pairs@),
            forall|pair: (i8, i8)| #[trigger] pairs@.contains(pair) <==> joined_among(pair, k as int),
        decreases connectors.len() - k,
    {
        assert(table[k as int] == connectors@[k as int]@);
        let ghost before = pairs@;
        match connectors[k].align {
            Some((Some(east), _, Some(west), _)) => {
                insert_pair(&mut pairs, (west, east));
                proof {
                    assert forall|pair: (i8, i8)| #[trigger] pairs@.contains(pair) <==> joined_among(pair, k + 1) by {
                        assert(before.contains(pair) <==> joined_among(pair, k as int));
                        if pair == (west, east) {
                            assert(aligns(table[k as int].align, pair));
                        }
                    }
                }
            },
            _ => {
                proof {
                    assert forall|pair: (i8, i8)| #[trigger] pairs@.contains(pair) <==> joined_among(pair, k + 1) by {
                        assert(before.contains(pair) <==> joined_among(pair, k as int));
                    }
                }
            },
        }
        k += 1;
    }
    proof {
        assert forall|pair: (i8, i8)| #[trigger] pairs@.contains(pair) <==> joins_phases(pair) by {
            assert(pairs@.contains(pair) <==> joined_among(pair, k as int));
        }
    }
    RoutingBasisCoverage {
        straight_wires_present: has_spec("horizontal wire tile") && has_spec("vertical wire tile"),
        turn_tiles_present: has_spec("NE turn tile") && has_spec("NW turn tile") && has_spec("SW turn tile")
            && has_spec("SE turn tile"),
        crossing_present: has_spec("crossing tile"),
        always_one_present: has_spec("always-1 tile"),
        connector_phase_pairs: pairs,
    }
}

/// Why a construction has no certificate.
pub enum CertificateFailure {
    Contract(ValidationFailure),
    LogicalMismatch,
    RoutingMismatch,
    DuplicateIds,
    MissingSink,
    SinkNotEnforcer(nat),
    InputPortInstance,
    UndeclaredInput(Seq<char>),
    MissingSource(nat),
    NotAnOutput((nat, Seq<char>), Seq<char>),
    ExternalTarget(NetModel),
    MissingTarget(nat),
    NotAnInput((nat, Seq<char>), Seq<char>),
    ManyDrivers((nat, Seq<char>), EndpointModel, EndpointModel),
    Fanout(EndpointModel, nat),
    MissingDriver(nat, Seq<char>),
    Routing(RoutingFailure),
    Inputs(InputFailure),
    Padding(PaddingFailure),
}

/// Why a construction has no certificate.
#[allow(inconsistent_fields)]
#[derive(Debug)]
pub enum CertificateError {
    /// A contract cannot be compared with the published relations.
    Contract { error: ValidationError },
    /// A contract of a gate, a splitter or an enforcer differs from its published relation.
    LogicalMismatch,
    /// A contract of a tile or a connector differs from its published relation.
    RoutingMismatch,
    /// Two instances have the same number.
    DuplicateIds,
    /// The instance that enforces the output is missing.
    MissingSink,
    /// The instance at the output does not enforce it.
    SinkNotEnforcer { id: InstanceId },
    /// An input is an instance.
    InputPortInstance,
    /// A net starts at an outside input that was not declared.
    UndeclaredInput { variable: String },
    /// A net starts at an instance that is missing.
    MissingSource { id: InstanceId },
    /// A net starts at a port that does not drive.
    NotAnOutput { port: PortRef, label: &'static str },
    /// A net leads to an outside input.
    ExternalTarget { net: Net },
    /// A net leads to an instance that is missing.
    MissingTarget { id: InstanceId },
    /// A net leads to a port that does not read.
    NotAnInput { port: PortRef, label: &'static str },
    /// Two nets lead to the same port.
    ManyDrivers { target: PortRef, first: Endpoint, second: Endpoint },
    /// Two nets start at the same end.
    Fanout { source: Endpoint, fanout: usize },
    /// No net leads to a port that reads.
    MissingDriver { id: InstanceId, port: &'static str },
    /// The nets cannot be routed.
    Routing { error: RoutingError },
    /// The inputs cannot be certified.
    Inputs { error: InputError },
    /// The padding cannot be computed.
    Padding { error: PaddingError },
}

impl View for CertificateError {
    type V = CertificateFailure;

    open spec fn view(&self) -> CertificateFailure {
        match *self {
            CertificateError::Contract { error } => CertificateFailure::Contract(error@),
            CertificateError::LogicalMismatch => CertificateFailure::LogicalMismatch,
            CertificateError::RoutingMismatch => CertificateFailure::RoutingMismatch,
            CertificateError::DuplicateIds => CertificateFailure::DuplicateIds,
            CertificateError::MissingSink => CertificateFailure::MissingSink,
            CertificateError::SinkNotEnforcer { id } => CertificateFailure::SinkNotEnforcer(id.0 as nat),
            CertificateError::InputPortInstance => CertificateFailure::InputPortInstance,
            CertificateError::UndeclaredInput { variable } => CertificateFailure::UndeclaredInput(variable@),
            CertificateError::MissingSource { id } => CertificateFailure::MissingSource(id.0 as nat),
            CertificateError::NotAnOutput { port, label } => CertificateFailure::NotAnOutput(port@, label@),
            CertificateError::ExternalTarget { net } => CertificateFailure::ExternalTarget(net@),
            CertificateError::MissingTarget { id } => CertificateFailure::MissingTarget(id.0 as nat),
            CertificateError::NotAnInput { port, label } => CertificateFailure::NotAnInput(port@, label@),
            CertificateError::ManyDrivers { target, first, second } => CertificateFailure::ManyDrivers(
                target@,
                first@,
                second@,
            ),
            CertificateError::Fanout { source, fanout } => CertificateFailure::Fanout(source@, fanout as nat),
            CertificateError::MissingDriver { id, port } => CertificateFailure::MissingDriver(id.0 as nat, port@),
            CertificateError::Routing { error } => CertificateFailure::Routing(error@),
            CertificateError::Inputs { error } => CertificateFailure::Inputs(error@),
            CertificateError::Padding { error } => CertificateFailure::Padding(error@),
        }
    }
}

/// The `Debug` rendering of a port.
pub open spec fn port_text(port: (nat, Seq<char>)) -> Seq<char> {
    "PortRef { instance: InstanceId("@ + text::decimal(port.0) + "), port: "@ + text::debug_text(port.1) + " }"@
}

fn push_port(out: &mut String, port: &PortRef)
    ensures
        final(out)@ == old(out)@ + port_text(port@),
{
    out.append("PortRef { instance: InstanceId(");
    push_usize(out, port.instance.0);
    out.append("), port: ");
    out.append(quoted(port.port).as_str());
    out.append(" }");
    assert(out@ =~= old(out)@ + port_text(port@));
}

/// The message of a failure.
pub open spec fn certificate_text(failure: CertificateFailure) -> Seq<char> {
    match failure {
        CertificateFailure::Contract(failure) => contracts::validation_text(failure),
        CertificateFailure::LogicalMismatch =>
            "Logical gadget contract library does not match the published relations"@,
        CertificateFailure::RoutingMismatch =>
            "Routing gadget contract library does not match the published relations"@,
        CertificateFailure::DuplicateIds => "Compiled construction contains duplicate instance ids"@,
        CertificateFailure::MissingSink => "Output sink instance is missing from compiled construction"@,
        CertificateFailure::SinkNotEnforcer(id) => "Output sink InstanceId("@ + text::decimal(id)
            + ") is not an enforcer instance"@,
        CertificateFailure::InputPortInstance =>
            "Compiled construction should not materialize input ports as gadget instances"@,
        CertificateFailure::UndeclaredInput(variable) => "Undeclared external input source '"@ + variable + "'"@,
        CertificateFailure::MissingSource(id) => "Missing contract for source instance InstanceId("@ + text::decimal(id)
            + ")"@,
        CertificateFailure::NotAnOutput(port, label) => "Port "@ + port_text(port)
            + " is not an output port of contract '"@ + label + "'"@,
        CertificateFailure::ExternalTarget(net) => "Compiled construction net targets an external input: Net { from: "@
            + compiler::end_text(net.from) + ", to: "@ + compiler::end_text(net.to) + " }"@,
        CertificateFailure::MissingTarget(id) => "Missing contract for target instance InstanceId("@ + text::decimal(id)
            + ")"@,
        CertificateFailure::NotAnInput(port, label) => "Port "@ + port_text(port)
            + " is not an input port of contract '"@ + label + "'"@,
        CertificateFailure::ManyDrivers(target, first, second) => "Input port "@ + port_text(target)
            + " has multiple drivers: "@ + compiler::end_text(first) + " and "@ + compiler::end_text(second),
        CertificateFailure::Fanout(source, fanout) => "Source endpoint "@ + compiler::end_text(source) + " has fanout "@
            + text::decimal(fanout) + "; explicit splitter expansion should keep per-port fanout <= 1"@,
        CertificateFailure::MissingDriver(id, port) => "Instance InstanceId("@ + text::decimal(id)
            + ") is missing a driver on required input port '"@ + port + "'"@,
        CertificateFailure::Routing(failure) => routing::routing_text(failure),
        CertificateFailure::Inputs(failure) => inputs::input_text(failure),
        CertificateFailure::Padding(failure) => padding::padding_text(failure),
    }
}

impl CertificateError {
    /// The message of the error.
    pub fn to_string(&self) -> (message: String)
        ensures
            message@ == certificate_text(self@),
    {
        let mut out: String = String::new();
        match self {
            CertificateError::Contract { error } => {
                return error.to_string();
            },
            CertificateError::LogicalMismatch => {
                out.append("Logical gadget contract library does not match the published relations");
            },
            CertificateError::RoutingMismatch => {
                out.append("Routing gadget contract library does not match the published relations");
            },
            CertificateError::DuplicateIds => {
                out.append("Compiled construction contains duplicate instance ids");
            },
            CertificateError::MissingSink => {
                out.append("Output sink instance is missing from compiled construction");
            },
            CertificateError::SinkNotEnforcer { id } => {
                out.append("Output sink InstanceId(");
                push_usize(&mut out, id.0);
                out.append(") is not an enforcer instance");
            },
            CertificateError::InputPortInstance => {
                out.append("Compiled construction should not materialize input ports as gadget instances");
            },
            CertificateError::UndeclaredInput { variable } => {
                out.append("Undeclared external input source '");
                out.append(variable.as_str());
                out.append("'");
            },
            CertificateError::MissingSource { id } => {
                out.append("Missing contract for source instance InstanceId(");
                push_usize(&mut out, id.0);
                out.append(")");
            },
            CertificateError::NotAnOutput { port, label } => {
                out.append("Port ");
                push_port(&mut out, port);
                out.append(" is not an output port of contract '");
                out.append(*label);
                out.append("'");
            },
            CertificateError::ExternalTarget { net } => {
                out.append("Compiled construction net targets an external input: Net { from: ");
                out.append(net.from.rendered().as_str());
                out.append(", to: ");
                out.append(net.to.rendered().as_str());
                out.append(" }");
            },
            CertificateError::MissingTarget { id } => {
                out.append("Missing contract for target instance InstanceId(");
                push_usize(&mut out, id.0);
                out.append(")");
            },
            CertificateError::NotAnInput { port, label } => {
                out.append("Port ");
                push_port(&mut out, port);
                out.append(" is not an input port of contract '");
                out.append(*label);
                out.append("'");
            },
            CertificateError::ManyDrivers { target, first, second } => {
                out.append("Input port ");
                push_port(&mut out, target);
                out.append(" has multiple drivers: ");
                out.append(first.rendered().as_str());
                out.append(" and ");
                out.append(second.rendered().as_str());
            },
            CertificateError::Fanout { source, fanout } => {
                out.append("Source endpoint ");
                out.append(source.rendered().as_str());
                out.append(" has fanout ");
                push_usize(&mut out, *fanout);
                out.append("; explicit splitter expansion should keep per-port fanout <= 1");
            },
            CertificateError::MissingDriver { id, port } => {
                out.append("Instance InstanceId(");
                push_usize(&mut out, id.0);
                out.append(") is missing a driver on required input port '");
                out.append(*port);
                out.append("'");
            },
            CertificateError::Routing { error } => {
                return error.to_string();
            },
            CertificateError::Inputs { error } => {
                return error.to_string();
            },
            CertificateError::Padding { error } => {
                return error.to_string();
            },
        }
        assert(out@ =~= certificate_text(self@));
        out
    }
}

/// No two instances have the same number.
pub open spec fn distinct_ids(c: ConstructionModel) -> bool {
    forall|i: int, j: int| #![trigger c.instances[i], c.instances[j]]
        0 <= i < j < c.instances.len() ==> c.instances[i].id != c.instances[j].id
}

/// No instance is an input.
pub open spec fn no_input_ports(c: ConstructionModel) -> bool {
    forall|i: int| 0 <= i < c.instances.len() ==> (#[trigger] c.instances[i]).kind !is InputPort
}

/// The contract has a port with a role.
pub open spec fn has_port(contract: ContractModel, port: Seq<char>, role: ContractPortRole) -> bool {
    exists|i: int|
        0 <= i < contract.bindings.len() && (#[trigger] contract.bindings[i]).0 == port && contract.bindings[i].2 == role
}

/// A text starts with another.
pub open spec fn starts_with(text: Seq<char>, start: Seq<char>) -> bool {
    start.len() <= text.len() && text.take(start.len() as int) == start
}

/// What is wrong with the source of a net.
pub open spec fn source_failure(c: ConstructionModel, end: EndpointModel) -> Option<CertificateFailure> {
    match end {
        EndpointModel::External(variable) => if c.variables.contains(variable) || starts_with(variable, "const_"@) {
            None
        } else {
            Some(CertificateFailure::UndeclaredInput(variable))
        },
        EndpointModel::Port(id, port) => match lanes::kind_of(c, id) {
            None => Some(CertificateFailure::MissingSource(id)),
            Some(kind) => {
                let contract = contracts::logical_contract(kind)->Some_0;
                if has_port(contract, port, ContractPortRole::Output) {
                    None
                } else {
                    Some(CertificateFailure::NotAnOutput((id, port), contract.label))
                }
            },
        },
    }
}

/// What is wrong with the target of a net.
pub open spec fn target_failure(c: ConstructionModel, net: NetModel) -> Option<CertificateFailure> {
    match net.to {
        EndpointModel::External(_) => Some(CertificateFailure::ExternalTarget(net)),
        EndpointModel::Port(id, port) => match lanes::kind_of(c, id) {
            None => Some(CertificateFailure::MissingTarget(id)),
            Some(kind) => {
                let contract = contracts::logical_contract(kind)->Some_0;
                if has_port(contract, port, ContractPortRole::Input) {
                    None
                } else {
                    Some(CertificateFailure::NotAnInput((id, port), contract.label))
                }
            },
        },
    }
}

/// The source of the first of the first `k` nets that lead to an end.
pub open spec fn driver_among(nets: Seq<NetModel>, end: EndpointModel, k: nat) -> Option<EndpointModel>
    decreases k,
{
    if k == 0 {
        None
    } else {
        match driver_among(nets, end, (k - 1) as nat) {
            Some(source) => Some(source),
            None => if nets[k - 1].to == end {
                Some(nets[k - 1].from)
            } else {
                None
            },
        }
    }
}

/// What is wrong with the first of the first `k` nets with which something is wrong.
pub open spec fn net_failure(c: ConstructionModel, k: nat) -> Option<CertificateFailure>
    decreases k,
{
    if k == 0 {
        None
    } else {
        let net = c.nets[k - 1];
        match net_failure(c, (k - 1) as nat) {
            Some(failure) => Some(failure),
            None => match source_failure(c, net.from) {
                Some(failure) => Some(failure),
                None => match target_failure(c, net) {
                    Some(failure) => Some(failure),
                    None => match driver_among(c.nets, net.to, (k - 1) as nat) {
                        Some(first) => Some(
                            CertificateFailure::ManyDrivers((net.to->Port_0, net.to->Port_1), first, net.from),
                        ),
                        None => None,
                    },
                },
            },
        }
    }
}

/// How many of the first `k` nets start at an end.
pub open spec fn fanout(nets: Seq<NetModel>, end: EndpointModel, k: nat) -> nat
    decreases k,
{
    if k == 0 {
        0
    } else {
        fanout(nets, end, (k - 1) as nat) + (if nets[k - 1].from == end {
            1nat
        } else {
            0
        })
    }
}

/// The first of the first `k` nets that shares its source with another.
pub open spec fn fanout_failure(nets: Seq<NetModel>, k: nat) -> Option<CertificateFailure>
    decreases k,
{
    if k == 0 {
        None
    } else {
        match fanout_failure(nets, (k - 1) as nat) {
            Some(failure) => Some(failure),
            None => if fanout(nets, nets[k - 1].from, nets.len()) > 1 {
                Some(CertificateFailure::Fanout(nets[k - 1].from, fanout(nets, nets[k - 1].from, nets.len())))
            } else {
                None
            },
        }
    }
}

/// The first of the first `k` ports of an instance that reads and is not driven.
pub open spec fn undriven_port(c: ConstructionModel, instance: InstanceModel, k: nat) -> Option<CertificateFailure>
    decreases k,
{
    let bindings = contracts::logical_contract(instance.kind)->Some_0.bindings;
    if k == 0 {
        None
    } else {
        match undriven_port(c, instance, (k - 1) as nat) {
            Some(failure) => Some(failure),
            None => if bindings[k - 1].2 == ContractPortRole::Input && driver_among(
                c.nets,
                EndpointModel::Port(instance.id, bindings[k - 1].0),
                c.nets.len(),
            ) is None {
                Some(CertificateFailure::MissingDriver(instance.id, bindings[k - 1].0))
            } else {
                None
            },
        }
    }
}

/// The first port of the first `k` instances that reads and is not driven.
pub open spec fn undriven(c: ConstructionModel, k: nat) -> Option<CertificateFailure>
    decreases k,
{
    if k == 0 {
        None
    } else {
        match undriven(c, (k - 1) as nat) {
            Some(failure) => Some(failure),
            None => undriven_port(
                c,
                c.instances[k - 1],
                contracts::logical_contract(c.instances[k - 1].kind)->Some_0.bindings.len(),
            ),
        }
    }
}

/// What is wrong with the instances and nets of a construction.
pub open spec fn structure_failure(c: ConstructionModel) -> Option<CertificateFailure> {
    if !distinct_ids(c) {
        Some(CertificateFailure::DuplicateIds)
    } else {
        match lanes::kind_of(c, c.output_sink) {
            None => Some(CertificateFailure::MissingSink),
            Some(MacroModel::Enforcer) => if !no_input_ports(c) {
                Some(CertificateFailure::InputPortInstance)
            } else if net_failure(c, c.nets.len()) is Some {
                net_failure(c, c.nets.len())
            } else if fanout_failure(c.nets, c.nets.len()) is Some {
                fanout_failure(c.nets, c.nets.len())
            } else {
                undriven(c, c.instances.len())
            },
            Some(_) => Some(CertificateFailure::SinkNotEnforcer(c.output_sink)),
        }
    }
}

/// All relations match.
pub open spec fn all_match(reports: Seq<ValidationModel>) -> bool {
    forall|i: int| 0 <= i < reports.len() ==> (#[trigger] reports[i]).relation_matches
}

/// What is wrong with the contracts.
pub open spec fn library_failure() -> Option<CertificateFailure> {
    match contracts::validations(contracts::logical_contracts(), contracts::logical_contracts().len()) {
        Err(failure) => Some(CertificateFailure::Contract(failure)),
        Ok(logical) => match contracts::validations(
            contracts::routing_contracts(),
            contracts::routing_contracts().len(),
        ) {
            Err(failure) => Some(CertificateFailure::Contract(failure)),
            Ok(routing) => if !all_match(logical) {
                Some(CertificateFailure::LogicalMismatch)
            } else if !all_match(routing) {
                Some(CertificateFailure::RoutingMismatch)
            } else {
                None
            },
        },
    }
}

/// What is wrong with the contracts, or with the instances and nets of a construction.
pub open spec fn check_failure(c: ConstructionModel) -> Option<CertificateFailure> {
    if library_failure() is Some {
        library_failure()
    } else {
        structure_failure(c)
    }
}

/// The construction's certificate.
#[derive(Debug, Clone, PartialEq, Eq)]
pub struct ConstructionCertificate {
    pub instances: Vec<CertifiedInstance>,
    pub nets: Vec<CertifiedNet>,
    pub external_inputs: Vec<String>,
    pub logical_contracts: Vec<ContractValidationReport>,
    pub routing_contracts: Vec<ContractValidationReport>,
    pub input_anchor_obligations: Vec<InputAnchorObligation>,
    pub internal_route_obligations: Vec<NetRouteObligation>,
    pub routing_basis_coverage: RoutingBasisCoverage,
    pub routing_witness: RoutingWitness,
    pub input_boundary_certificate: InputBoundaryCertificate,
    pub dead_boundary_padding_certificate: DeadBoundaryPaddingCertificate,
    pub interface_basis_complete: bool,
    pub remaining_obligations: Vec<&'static str>,
}

/// The name of a kind.
pub open spec fn kind_label(kind: MacroModel) -> Seq<char> {
    match kind {
        MacroModel::InputPort(_) => "InputPort"@,
        MacroModel::NotGate => "NotGate"@,
        MacroModel::OrGate => "OrGate"@,
        MacroModel::Splitter => "Splitter"@,
        MacroModel::Enforcer => "Enforcer"@,
    }
}

fn macro_kind_label(kind: &MacroKind) -> (label: &'static str)
    ensures
        label@ == kind_label(kind@),
{
    match kind {
        MacroKind::InputPort { .. } => "InputPort",
        MacroKind::NotGate => "NotGate",
        MacroKind::OrGate => "OrGate",
        MacroKind::Splitter => "Splitter",
        MacroKind::Enforcer => "Enforcer",
    }
}

/// The entry tells of the instance and of the pattern that realises it.
pub open spec fn certifies_instance(entry: CertifiedInstance, instance: InstanceModel) -> bool {
    &&& entry.id.0 == instance.id
    &&& entry.kind@ == kind_label(instance.kind)
    &&& contracts::logical_contract(instance.kind) matches Some(contract) && entry.published_spec_name@
        == contract.spec_name
    &&& entry.column == instance.column
    &&& entry.row == instance.row
}

/// The entry tells of the net.
pub open spec fn certifies_net(entry: CertifiedNet, net: NetModel) -> bool {
    entry.from@ == net.from && net.to == EndpointModel::Port(entry.to@.0, entry.to@.1)
}

/// A port of an instance has a pattern, and faces in a direction.
pub open spec fn faces(c: ConstructionModel, port: (nat, Seq<char>), spec_name: Seq<char>, dir: RouteDir) -> bool {
    lanes::kind_of(c, port.0) matches Some(kind) && compiler::published_name(kind) == Some(spec_name)
        && routing::port_dir(kind, port.1) == Ok::<RouteDir, RoutingFailure>(dir)
}

/// The obligation to anchor the source of a net.
pub open spec fn is_anchor(c: ConstructionModel, net: NetModel, entry: InputAnchorObligation) -> bool {
    &&& net.from == EndpointModel::External(entry.variable@)
    &&& net.to == EndpointModel::Port(entry.target@.0, entry.target@.1)
    &&& faces(c, entry.target@, entry.target_spec_name@, entry.target_dir)
}

/// The obligation to join the ends of a net.
pub open spec fn is_route(c: ConstructionModel, net: NetModel, entry: NetRouteObligation) -> bool {
    &&& net.from == EndpointModel::Port(entry.from@.0, entry.from@.1)
    &&& net.to == EndpointModel::Port(entry.to@.0, entry.to@.1)
    &&& faces(c, entry.from@, entry.source_spec_name@, entry.source_dir)
    &&& faces(c, entry.to@, entry.target_spec_name@, entry.target_dir)
}

/// The nets among the first `k` that start at outside inputs, or those that do not.
pub open spec fn nets_from(nets: Seq<NetModel>, outside: bool, k: nat) -> Seq<NetModel>
    decreases k,
{
    if k == 0 {
        Seq::empty()
    } else if (nets[k - 1].from is External) == outside {
        nets_from(nets, outside, (k - 1) as nat).push(nets[k - 1])
    } else {
        nets_from(nets, outside, (k - 1) as nat)
    }
}

/// The obligations to anchor the inputs.
pub open spec fn are_anchors(c: ConstructionModel, k: nat, entries: Seq<InputAnchorObligation>) -> bool {
    let nets = nets_from(c.nets, true, k);
    entries.len() == nets.len() && forall|i: int|
        0 <= i < entries.len() ==> is_anchor(c, nets[i], #[trigger] entries[i])
}

/// The obligations to join ports.
pub open spec fn are_routes(c: ConstructionModel, k: nat, entries: Seq<NetRouteObligation>) -> bool {
    let nets = nets_from(c.nets, false, k);
    entries.len() == nets.len() && forall|i: int|
        0 <= i < entries.len() ==> is_route(c, nets[i], #[trigger] entries[i])
}

/// What is left to prove of a routed construction.
pub open spec fn open_obligations() -> Seq<Seq<char>> {
    seq![
        "Prove local horizontal interface lemmas for the connector families used by the routing witness."@,
        "Prove local vertical interface lemmas for the vertical adjacency families used by the routing witness."@,
    ]
}

/// Texts, as sequences of characters.
pub open spec fn name_texts(names: Seq<&'static str>) -> Seq<Seq<char>> {
    Seq::new(names.len(), |i: int| names[i]@)
}

/// The certificate tells of the instances, nets and contracts of the construction.
pub open spec fn tells_structure(c: ConstructionModel, certificate: ConstructionCertificate) -> bool {
    &&& certificate.instances@.len() == c.instances.len()
    &&& forall|i: int|
        0 <= i < c.instances.len() ==> certifies_instance(#[trigger] certificate.instances@[i], c.instances[i])
    &&& certificate.nets@.len() == c.nets.len()
    &&& forall|i: int| 0 <= i < c.nets.len() ==> certifies_net(#[trigger] certificate.nets@[i], c.nets[i])
    &&& circuit::texts(certificate.external_inputs@) == c.variables
    &&& contracts::validations(contracts::logical_contracts(), contracts::logical_contracts().len()) == Ok::<
        Seq<ValidationModel>,
        ValidationFailure,
    >(contracts::validation_models(certificate.logical_contracts@))
    &&& contracts::validations(contracts::routing_contracts(), contracts::routing_contracts().len()) == Ok::<
        Seq<ValidationModel>,
        ValidationFailure,
    >(contracts::validation_models(certificate.routing_contracts@))
    &&& are_anchors(c, c.nets.len(), certificate.input_anchor_obligations@)
    &&& are_routes(c, c.nets.len(), certificate.internal_route_obligations@)
    &&& is_coverage(certificate.routing_basis_coverage)
    &&& !certificate.interface_basis_complete
    &&& name_texts(certificate.remaining_obligations@) == open_obligations()
}

/// The result for a construction that passed the checks, when its nets were routed.
pub open spec fn is_certified(
    c: ConstructionModel,
    files: &PatternFiles,
    routed: Result<RoutingWitness, RoutingError>,
    result: Result<ConstructionCertificate, CertificateError>,
) -> bool {
    match routed {
        Err(error) => result matches Err(refusal) && refusal@ == CertificateFailure::Routing(error@),
        Ok(witness) => match inputs::entries_of(c, witness.route_cells@, witness.net_paths@, witness.net_paths@.len()) {
            Err(failure) => result matches Err(refusal) && refusal@ == CertificateFailure::Inputs(failure),
            Ok(entries) => match padding::dimension_bounds(files) {
                Err(failure) => result matches Err(refusal) && refusal@ == CertificateFailure::Padding(failure),
                Ok(size) => {
                    &&& result matches Ok(certificate)
                    &&& tells_structure(c, certificate)
                    &&& certificate.routing_witness == witness
                    &&& inputs::is_certificate(certificate.input_boundary_certificate, entries)
                    &&& padding::is_padding(
                        certificate.dead_boundary_padding_certificate,
                        routing::extent(witness.bounds.min_x as int, witness.bounds.max_x as int),
                        routing::extent(witness.bounds.min_y as int, witness.bounds.max_y as int),
                        size,
                    )
                },
            },
        },
    }
}

/// The result for a construction.
pub open spec fn is_certificate_result(
    c: ConstructionModel,
    files: &PatternFiles,
    result: Result<ConstructionCertificate, CertificateError>,
) -> bool {
    match check_failure(c) {
        Some(failure) => result matches Err(error) && error@ == failure,
        None => exists|routed: Result<RoutingWitness, RoutingError>| #[trigger]
            routing::is_routing_result(c, files, routed) && is_certified(c, files, routed, result),
    }
}

fn ids_differ(instances: &Vec<MacroInstance>) -> (differ: bool)
    ensures
        differ == forall|i: int, j: int| #![trigger instances@[i], instances@[j]]
            0 <= i < j < instances@.len() ==> instances@[i].id != instances@[j].id,
{
    let mut j: usize = 0;
    while j < instances.len()
        invariant
            j <= instances@.len(),
            forall|a: int, b: int| #![trigger instances@[a], instances@[b]]
                0 <= a < b < j ==> instances@[a].id != instances@[b].id,
        decreases instances.len() - j,
    {
        let mut i: usize = 0;
        while i < j
            invariant
                i <= j < instances@.len(),
                forall|a: int| 0 <= a < i ==> (#[trigger] instances@[a]).id != instances@[j as int].id,
            decreases j - i,
        {
            if instances[i].id.0 == instances[j].id.0 {
                assert(instances@[i as int].id == instances@[j as int].id);
                return false;
            }
            i += 1;
        }
        j += 1;
    }
    true
}

/// The first instance with a number.
fn find_instance(construction: &CompiledConstruction, id: usize) -> (found: Option<usize>)
    ensures
        match found {
            Some(i) => i < construction.instances@.len() && lanes::kind_of(construction@, id as nat) == Some(
                construction.instances@[i as int].kind@,
            ),
            None => lanes::kind_of(construction@, id as nat) is None,
        },
{
    let ghost c = construction@;
    let mut k: usize = 0;
    while k < construction.instances.len()
        invariant
            k <= construction.instances@.len(),
            c == construction@,
            lanes::kind_among(c.instances, k as nat, id as nat) is None,
        decreases construction.instances.len() - k,
    {
        assert(c.instances[k as int] == construction.instances@[k as int]@);
        if construction.instances[k].id.0 == id {
            proof {
                lanes::lemma_kind_found(c.instances, (k + 1) as nat, c.instances.len(), id as nat);
            }
            return Some(k);
        }
        k += 1;
    }
    None
}

fn offers_port(contract: &GadgetContract, port: &str, role: ContractPortRole) -> (found: bool)
    ensures
        found == has_port(contract@, port@, role),
{
    let ghost model = contract@;
    let mut k: usize = 0;
    while k < contract.bindings.len()
        invariant
            k <= contract.bindings@.len(),
            model == contract@,
            forall|i: int| 0 <= i < k ==> !((#[trigger] model.bindings[i]).0 == port@ && model.bindings[i].2 == role),
        decreases contract.bindings.len() - k,
    {
        assert(model.bindings[k as int] == contract.bindings@[k as int]@);
        if same_text(contract.bindings[k].macro_port, port) && contract.bindings[k].role == role {
            return true;
        }
        k += 1;
    }
    false
}

/// Whether a text starts with another.
fn begins_with(text: &str, start: &str) -> (result: bool)
    ensures
        result == starts_with(text@, start@),
{
    let whole: Vec<char> = chars_of(text);
    let part: Vec<char> = chars_of(start);
    if part.len() > whole.len() {
        return false;
    }
    let mut k: usize = 0;
    while k < part.len()
        invariant
            k <= part@.len() <= whole@.len(),
            whole@ == text@,
            part@ == start@,
            forall|i: int| 0 <= i < k ==> whole@[i] == part@[i],
        decreases part.len() - k,
    {
        if whole[k] != part[k] {
            assert(text@.take(part@.len() as int)[k as int] != start@[k as int]);
            return false;
        }
        k += 1;
    }
    assert(text@.take(part@.len() as int) =~= start@);
    true
}

/// The contracts of the instances.
pub open spec fn are_contracts(c: ConstructionModel, list: Seq<GadgetContract>) -> bool {
    list.len() == c.instances.len() && forall|i: int|
        0 <= i < list.len() ==> contracts::logical_contract(c.instances[i].kind) == Some((#[trigger] list[i])@)
}

fn instance_contracts(construction: &CompiledConstruction) -> (list: Option<Vec<GadgetContract>>)
    ensures
        match list {
            Some(list) => no_input_ports(construction@) && are_contracts(construction@, list@),
            None => !no_input_ports(construction@),
        },
{
    let ghost c = construction@;
    let mut list: Vec<GadgetContract> = Vec::new();
    let mut k: usize = 0;
    while k < construction.instances.len()
        invariant
            k <= construction.instances@.len(),
            c == construction@,
            list@.len() == k,
            forall|i: int|
                0 <= i < k ==> contracts::logical_contract(c.instances[i].kind) == Some((#[trigger] list@[i])@),
            forall|i: int| 0 <= i < k ==> (#[trigger] c.instances[i]).kind !is InputPort,
        decreases construction.instances.len() - k,
    {
        assert(c.instances[k as int] == construction.instances@[k as int]@);
        match logical_contract_for_instance(&construction.instances[k].kind) {
            Some(contract) => {
                list.push(contract);
            },
            None => {
                assert(c.instances[k as int].kind is InputPort);
                return None;
            },
        }
        k += 1;
    }
    Some(list)
}

fn certify_source_endpoint(
    construction: &CompiledConstruction,
    list: &Vec<GadgetContract>,
    end: &Endpoint,
) -> (result: Result<(), CertificateError>)
    requires
        construction.variable_inputs.wf(),
        are_contracts(construction@, list@),
    ensures
        match source_failure(construction@, end@) {
            Some(failure) => result matches Err(error) && error@ == failure,
            None => result is Ok,
        },
{
    match end {
        Endpoint::ExternalInput { variable } => {
            proof {
                construction.variable_inputs.lemma_entries();
            }
            if construction.variable_inputs.contains_key(variable.as_str()) || begins_with(variable.as_str(), "const_") {
                Ok(())
            } else {
                Err(CertificateError::UndeclaredInput { variable: variable.clone() })
            }
        },
        Endpoint::InstancePort(port) => match find_instance(construction, port.instance.0) {
            None => Err(CertificateError::MissingSource { id: port.instance }),
            Some(i) => {
                assert(construction@.instances[i as int] == construction.instances@[i as int]@);
                let contract: &GadgetContract = &list[i];
                if offers_port(contract, port.port, ContractPortRole::Output) {
                    Ok(())
                } else {
                    Err(CertificateError::NotAnOutput { port: *port, label: contract.label })
                }
            },
        },
    }
}

fn certify_target_port(
    construction: &CompiledConstruction,
    list: &Vec<GadgetContract>,
    net: &Net,
) -> (result: Result<PortRef, CertificateError>)
    requires
        are_contracts(construction@, list@),
    ensures
        match target_failure(construction@, net@) {
            Some(failure) => result matches Err(error) && error@ == failure,
            None => result matches Ok(port) && net@.to == EndpointModel::Port(port@.0, port@.1),
        },
{
    match &net.to {
        Endpoint::ExternalInput { .. } => Err(
            CertificateError::ExternalTarget { net: Net { from: net.from.clone(), to: net.to.clone() } },
        ),
        Endpoint::InstancePort(port) => match find_instance(construction, port.instance.0) {
            None => Err(CertificateError::MissingTarget { id: port.instance }),
            Some(i) => {
                assert(construction@.instances[i as int] == construction.instances@[i as int]@);
                let contract: &GadgetContract = &list[i];
                if offers_port(contract, port.port, ContractPortRole::Input) {
                    Ok(*port)
                } else {
                    Err(CertificateError::NotAnInput { port: *port, label: contract.label })
                }
            },
        },
    }
}

proof fn lemma_driver_stays(nets: Seq<NetModel>, end: EndpointModel, j: nat, k: nat)
    requires
        j <= k,
        driver_among(nets, end, j) is Some,
    ensures
        driver_among(nets, end, k) == driver_among(nets, end, j),
    decreases k,
{
    if j < k {
        lemma_driver_stays(nets, end, j, (k - 1) as nat);
    }
}

/// The first of the first `n` nets that lead to an end.
fn find_driver(construction: &CompiledConstruction, end: &Endpoint, n: usize) -> (found: Option<usize>)
    requires
        n <= construction.nets@.len(),
    ensures
        match found {
            Some(i) => i < n && driver_among(construction@.nets, end@, n as nat) == Some(
                construction.nets@[i as int].from@,
            ),
            None => driver_among(construction@.nets, end@, n as nat) is None,
        },
{
    let ghost nets = construction@.nets;
    let mut k: usize = 0;
    while k < n
        invariant
            k <= n <= construction.nets@.len(),
            nets == construction@.nets,
            driver_among(nets, end@, k as nat) is None,
        decreases n - k,
    {
        assert(nets[k as int] == construction.nets@[k as int]@);
        if construction.nets[k].to.same(end) {
            proof {
                lemma_driver_stays(nets, end@, (k + 1) as nat, n as nat);
            }
            return Some(k);
        }
        k += 1;
    }
    None
}

proof fn lemma_net_fails(c: ConstructionModel, j: nat, k: nat)
    requires
        j <= k,
        net_failure(c, j) is Some,
    ensures
        net_failure(c, k) == net_failure(c, j),
    decreases k,
{
    if j < k {
        lemma_net_fails(c, j, (k - 1) as nat);
    }
}

/// Checks the nets, one after the other.
fn certify_nets(construction: &CompiledConstruction, list: &Vec<GadgetContract>) -> (result: Result<
    Vec<CertifiedNet>,
    CertificateError,
>)
    requires
        construction.variable_inputs.wf(),
        are_contracts(construction@, list@),
    ensures
        match net_failure(construction@, construction@.nets.len()) {
            Some(failure) => result matches Err(error) && error@ == failure,
            None => result matches Ok(entries) && entries@.len() == construction@.nets.len() && forall|i: int|
                0 <= i < entries@.len() ==> certifies_net(#[trigger] entries@[i], construction@.nets[i]),
        },
{
    let ghost c = construction@;
    let mut entries: Vec<CertifiedNet> = Vec::new();
    let mut k: usize = 0;
    while k < construction.nets.len()
        invariant
            k <= construction.nets@.len(),
            c == construction@,
            construction.variable_inputs.wf(),
            are_contracts(c, list@),
            net_failure(c, k as nat) is None,
            entries@.len() == k,
            forall|i: int| 0 <= i < k ==> certifies_net(#[trigger] entries@[i], c.nets[i]),
        decreases construction.nets.len() - k,
    {
        let net: &Net = &construction.nets[k];
        assert(c.nets[k as int] == net@);
        let ghost failed = net_failure(c, (k + 1) as nat);
        proof {
            if failed is Some {
                lemma_net_fails(c, (k + 1) as nat, c.nets.len());
            }
        }
        match certify_source_endpoint(construction, list, &net.from) {
            Ok(_) => {},
            Err(error) => {
                return Err(error);
            },
        }
        let target: PortRef = match certify_target_port(construction, list, net) {
            Ok(port) => port,
            Err(error) => {
                return Err(error);
            },
        };
        match find_driver(construction, &net.to, k) {
            Some(first) => {
                return Err(
                    CertificateError::ManyDrivers {
                        target,
                        first: construction.nets[first].from.clone(),
                        second: net.from.clone(),
                    },
                );
            },
            None => {},
        }
        entries.push(CertifiedNet { from: net.from.clone(), to: target });
        k += 1;
    }
    Ok(entries)
}

proof fn lemma_fanout_fails(nets: Seq<NetModel>, j: nat, k: nat)
    requires
        j <= k,
        fanout_failure(nets, j) is Some,
    ensures
        fanout_failure(nets, k) == fanout_failure(nets, j),
    decreases k,
{
    if j < k {
        lemma_fanout_fails(nets, j, (k - 1) as nat);
    }
}

/// How many nets start at an end.
fn count_fanout(construction: &CompiledConstruction, end: &Endpoint) -> (count: usize)
    ensures
        count == fanout(construction@.nets, end@, construction@.nets.len()),
{
    let ghost nets = construction@.nets;
    let mut count: usize = 0;
    let mut k: usize = 0;
    while k < construction.nets.len()
        invariant
            k <= construction.nets@.len(),
            nets == construction@.nets,
            count == fanout(nets, end@, k as nat),
            count <= k,
        decreases construction.nets.len() - k,
    {
        assert(nets[k as int] == construction.nets@[k as int]@);
        if construction.nets[k].from.same(end) {
            count += 1;
        }
        k += 1;
    }
    count
}

fn check_fanout(construction: &CompiledConstruction) -> (result: Result<(), CertificateError>)
    ensures
        match fanout_failure(construction@.nets, construction@.nets.len()) {
            Some(failure) => result matches Err(error) && error@ == failure,
            None => result is Ok,
        },
{
    let ghost nets = construction@.nets;
    let mut k: usize = 0;
    while k < construction.nets.len()
        invariant
            k <= construction.nets@.len(),
            nets == construction@.nets,
            fanout_failure(nets, k as nat) is None,
        decreases construction.nets.len() - k,
    {
        assert(nets[k as int] == construction.nets@[k as int]@);
        let count: usize = count_fanout(construction, &construction.nets[k].from);
        if count > 1 {
            proof {
                lemma_fanout_fails(nets, (k + 1) as nat, nets.len());
            }
            return Err(CertificateError::Fanout { source: construction.nets[k].from.clone(), fanout: count });
        }
        k += 1;
    }
    Ok(())
}

proof fn lemma_port_fails(c: ConstructionModel, instance: InstanceModel, j: nat, k: nat)
    requires
        j <= k,
        undriven_port(c, instance, j) is Some,
    ensures
        undriven_port(c, instance, k) == undriven_port(c, instance, j),
    decreases k,
{
    if j < k {
        lemma_port_fails(c, instance, j, (k - 1) as nat);
    }
}

fn check_ports(construction: &CompiledConstruction, instance: &MacroInstance, contract: &GadgetContract) -> (result:
    Result<(), CertificateError>)
    requires
        contracts::logical_contract(instance@.kind) == Some(contract@),
    ensures
        match undriven_port(construction@, instance@, contract@.bindings.len()) {
            Some(failure) => result matches Err(error) && error@ == failure,
            None => result is Ok,
        },
{
    let ghost c = construction@;
    let ghost model = contract@;
    let mut k: usize = 0;
    while k < contract.bindings.len()
        invariant
            k <= contract.bindings@.len(),
            c == construction@,
            model == contract@,
            contracts::logical_contract(instance@.kind) == Some(model),
            undriven_port(c, instance@, k as nat) is None,
        decreases contract.bindings.len() - k,
    {
        assert(model.bindings[k as int] == contract.bindings@[k as int]@);
        let port: &'static str = contract.bindings[k].macro_port;
        if contract.bindings[k].role == ContractPortRole::Input {
            let end: Endpoint = Endpoint::InstancePort(PortRef { instance: instance.id, port });
            match find_driver(construction, &end, construction.nets.len()) {
                Some(_) => {},
                None => {
                    proof {
                        lemma_port_fails(c, instance@, (k + 1) as nat, model.bindings.len());
                    }
                    return Err(CertificateError::MissingDriver { id: instance.id, port });
                },
            }
        }
        k += 1;
    }
    Ok(())
}

proof fn lemma_undriven_fails(c: ConstructionModel, j: nat, k: nat)
    requires
        j <= k,
        undriven(c, j) is Some,
    ensures
        undriven(c, k) == undriven(c, j),
    decreases k,
{
    if j < k {
        lemma_undriven_fails(c, j, (k - 1) as nat);
    }
}

fn check_drivers(construction: &CompiledConstruction, list: &Vec<GadgetContract>) -> (result: Result<
    (),
    CertificateError,
>)
    requires
        are_contracts(construction@, list@),
    ensures
        match undriven(construction@, construction@.instances.len()) {
            Some(failure) => result matches Err(error) && error@ == failure,
            None => result is Ok,
        },
{
    let ghost c = construction@;
    let mut k: usize = 0;
    while k < construction.instances.len()
        invariant
            k <= construction.instances@.len(),
            c == construction@,
            are_contracts(c, list@),
            undriven(c, k as nat) is None,
        decreases construction.instances.len() - k,
    {
        assert(c.instances[k as int] == construction.instances@[k as int]@);
        match check_ports(construction, &construction.instances[k], &list[k]) {
            Ok(_) => {},
            Err(error) => {
                proof {
                    lemma_undriven_fails(c, (k + 1) as nat, c.instances.len());
                }
                return Err(error);
            },
        }
        k += 1;
    }
    Ok(())
}

/// A port with a role faces in a direction.
proof fn lemma_role_faces(kind: MacroModel, port: Seq<char>, role: ContractPortRole)
    requires
        kind !is InputPort,
        has_port(contracts::logical_contract(kind)->Some_0, port, role),
    ensures
        routing::port_dir(kind, port) is Ok,
{
}

/// The ends of a net with which nothing is wrong.
proof fn lemma_net_sound(c: ConstructionModel, i: nat, k: nat)
    requires
        i < k <= c.nets.len(),
        net_failure(c, k) is None,
    ensures
        source_failure(c, c.nets[i as int].from) is None,
        target_failure(c, c.nets[i as int]) is None,
    decreases k,
{
    if i + 1 < k {
        lemma_net_sound(c, i, (k - 1) as nat);
    }
}

/// A kind that was found is that of an instance.
proof fn lemma_kind_stands(c: ConstructionModel, k: nat, id: nat)
    requires
        k <= c.instances.len(),
        no_input_ports(c),
    ensures
        lanes::kind_among(c.instances, k, id) matches Some(kind) ==> kind !is InputPort,
    decreases k,
{
    if k > 0 {
        lemma_kind_stands(c, (k - 1) as nat, id);
        assert(c.instances[k - 1].kind !is InputPort);
    }
}

/// The pattern of the instance at a port, and the direction in which the port faces.
fn port_facing(construction: &CompiledConstruction, port: &PortRef, role: Ghost<ContractPortRole>) -> (facing: (
    &'static str,
    RouteDir,
))
    requires
        no_input_ports(construction@),
        lanes::kind_of(construction@, port@.0) matches Some(kind) && has_port(
            contracts::logical_contract(kind)->Some_0,
            port@.1,
            role@,
        ),
    ensures
        faces(construction@, port@, facing.0@, facing.1),
{
    proof {
        lemma_kind_stands(construction@, construction@.instances.len(), port@.0);
        let kind = lanes::kind_of(construction@, port@.0)->Some_0;
        lemma_role_faces(kind, port@.1, role@);
    }
    let i: usize = match find_instance(construction, port.instance.0) {
        Some(i) => i,
        None => 0,
    };
    let kind: &MacroKind = &construction.instances[i].kind;
    let name: &'static str = match kind.published_spec_name() {
        Some(name) => name,
        None => "",
    };
    let dir: RouteDir = match macro_port_dir(kind, port.port) {
        Ok(dir) => dir,
        Err(_) => RouteDir::N,
    };
    (name, dir)
}

/// What is left to show of the nets: inputs to anchor, and ports to join.
fn collect_obligations(construction: &CompiledConstruction) -> (obligations: (
    Vec<InputAnchorObligation>,
    Vec<NetRouteObligation>,
))
    requires
        no_input_ports(construction@),
        net_failure(construction@, construction@.nets.len()) is None,
    ensures
        are_anchors(construction@, construction@.nets.len(), obligations.0@),
        are_routes(construction@, construction@.nets.len(), obligations.1@),
{
    let ghost c = construction@;
    let mut anchors: Vec<InputAnchorObligation> = Vec::new();
    let mut routes: Vec<NetRouteObligation> = Vec::new();
    let mut k: usize = 0;
    while k < construction.nets.len()
        invariant
            k <= construction.nets@.len(),
            c == construction@,
            no_input_ports(c),
            net_failure(c, c.nets.len()) is None,
            are_anchors(c, k as nat, anchors@),
            are_routes(c, k as nat, routes@),
        decreases construction.nets.len() - k,
    {
        let net: &Net = &construction.nets[k];
        assert(c.nets[k as int] == net@);
        proof {
            lemma_net_sound(c, k as nat, c.nets.len());
        }
        match &net.to {
            Endpoint::InstancePort(target) => {
                let facing: (&'static str, RouteDir) = port_facing(
                    construction,
                    target,
                    Ghost(ContractPortRole::Input),
                );
                match &net.from {
                    Endpoint::ExternalInput { variable } => {
                        let entry: InputAnchorObligation = InputAnchorObligation {
                            variable: variable.clone(),
                            target: *target,
                            target_spec_name: facing.0,
                            target_dir: facing.1,
                        };
                        assert(is_anchor(c, net@, entry));
                        anchors.push(entry);
                    },
                    Endpoint::InstancePort(source) => {
                        let start: (&'static str, RouteDir) = port_facing(
                            construction,
                            source,
                            Ghost(ContractPortRole::Output),
                        );
                        let entry: NetRouteObligation = NetRouteObligation {
                            from: *source,
                            to: *target,
                            source_spec_name: start.0,
                            target_spec_name: facing.0,
                            source_dir: start.1,
                            target_dir: facing.1,
                        };
                        assert(is_route(c, net@, entry));
                        routes.push(entry);
                    },
                }
            },
            Endpoint::ExternalInput { .. } => {},
        }
        k += 1;
    }
    (anchors, routes)
}

fn list_instances(construction: &CompiledConstruction, list: &Vec<GadgetContract>) -> (entries: Vec<CertifiedInstance>)
    requires
        are_contracts(construction@, list@),
    ensures
        entries@.len() == construction@.instances.len(),
        forall|i: int|
            0 <= i < entries@.len() ==> certifies_instance(#[trigger] entries@[i], construction@.instances[i]),
{
    let ghost c = construction@;
    let mut entries: Vec<CertifiedInstance> = Vec::new();
    let mut k: usize = 0;
    while k < construction.instances.len()
        invariant
            k <= construction.instances@.len(),
            c == construction@,
            are_contracts(c, list@),
            entries@.len() == k,
            forall|i: int| 0 <= i < k ==> certifies_instance(#[trigger] entries@[i], c.instances[i]),
        decreases construction.instances.len() - k,
    {
        let instance: &MacroInstance = &construction.instances[k];
        assert(c.instances[k as int] == instance@);
        entries.push(
            CertifiedInstance {
                id: instance.id,
                kind: macro_kind_label(&instance.kind).to_owned(),
                published_spec_name: list[k].published_spec_name,
                column: instance.column,
                row: instance.row,
            },
        );
        k += 1;
    }
    entries
}

fn relations_match(reports: &Vec<ContractValidationReport>) -> (result: bool)
    ensures
        result == all_match(contracts::validation_models(reports@)),
{
    let ghost models = contracts::validation_models(reports@);
    let mut k: usize = 0;
    while k < reports.len()
        invariant
            k <= reports@.len(),
            models == contracts::validation_models(reports@),
            forall|i: int| 0 <= i < k ==> (#[trigger] models[i]).relation_matches,
        decreases reports.len() - k,
    {
        assert(models[k as int] == reports@[k as int]@);
        if !reports[k].relation_matches {
            return false;
        }
        k += 1;
    }
    true
}

/// Checks the instances and nets of a construction.
fn check_structure(construction: &CompiledConstruction) -> (result: Result<
    (Vec<CertifiedInstance>, Vec<CertifiedNet>),
    CertificateError,
>)
    requires
        construction.variable_inputs.wf(),
    ensures
        match structure_failure(construction@) {
            Some(failure) => result matches Err(error) && error@ == failure,
            None => result matches Ok(found) && found.0@.len() == construction@.instances.len() && (forall|i: int|
                0 <= i < found.0@.len() ==> certifies_instance(#[trigger] found.0@[i], construction@.instances[i]))
                && found.1@.len() == construction@.nets.len() && (forall|i: int|
                0 <= i < found.1@.len() ==> certifies_net(#[trigger] found.1@[i], construction@.nets[i])),
        },
{
    let ghost c = construction@;
    if !ids_differ(&construction.instances) {
        proof {
            let (i, j) = choose|i: int, j: int| #![trigger construction.instances@[i], construction.instances@[j]]
                0 <= i < j < construction.instances@.len() && construction.instances@[i].id
                    == construction.instances@[j].id;
            assert(c.instances[i].id == c.instances[j].id);
        }
        return Err(CertificateError::DuplicateIds);
    }
    assert(distinct_ids(c)) by {
        assert forall|i: int, j: int| #![trigger c.instances[i], c.instances[j]]
            0 <= i < j < c.instances.len() implies c.instances[i].id != c.instances[j].id by {
            assert(construction.instances@[i].id != construction.instances@[j].id);
        }
    }
    match find_instance(construction, construction.output_sink.0) {
        None => {
            return Err(CertificateError::MissingSink);
        },
        Some(i) => match construction.instances[i].kind {
            MacroKind::Enforcer => {},
            _ => {
                return Err(CertificateError::SinkNotEnforcer { id: construction.output_sink });
            },
        },
    }
    let list: Vec<GadgetContract> = match instance_contracts(construction) {
        Some(list) => list,
        None => {
            return Err(CertificateError::InputPortInstance);
        },
    };
    let nets: Vec<CertifiedNet> = match certify_nets(construction, &list) {
        Ok(entries) => entries,
        Err(error) => {
            return Err(error);
        },
    };
    match check_fanout(construction) {
        Ok(_) => {},
        Err(error) => {
            return Err(error);
        },
    }
    match check_drivers(construction, &list) {
        Ok(_) => {},
        Err(error) => {
            return Err(error);
        },
    }
    Ok((list_instances(construction, &list), nets))
}

/// Compares the contracts with the published relations.
fn check_contracts() -> (result: Result<(Vec<ContractValidationReport>, Vec<ContractValidationReport>), CertificateError>)
    ensures
        match library_failure() {
            Some(failure) => result matches Err(error) && error@ == failure,
            None => result matches Ok(found) && contracts::is_validation_result(
                contracts::logical_contracts(),
                Ok(found.0),
            ) && contracts::is_validation_result(contracts::routing_contracts(), Ok(found.1)),
        },
{
    let logical_contracts: Vec<ContractValidationReport> = match validate_logical_contract_library() {
        Ok(reports) => reports,
        Err(error) => {
            return Err(CertificateError::Contract { error });
        },
    };
    let routing_contracts: Vec<ContractValidationReport> = match validate_routing_contract_library() {
        Ok(reports) => reports,
        Err(error) => {
            return Err(CertificateError::Contract { error });
        },
    };
    if !relations_match(&logical_contracts) {
        return Err(CertificateError::LogicalMismatch);
    }
    if !relations_match(&routing_contracts) {
        return Err(CertificateError::RoutingMismatch);
    }
    Ok((logical_contracts, routing_contracts))
}

/// Certifies a construction: its contracts match the published relations, every port that
/// reads is driven once, no source is shared, and its nets, inputs and padding are in order.
pub fn certify_compiled_construction(files: &PatternFiles, construction: &CompiledConstruction) -> (result: Result<
    ConstructionCertificate,
    CertificateError,
>)
    requires
        files.wf(),
        construction.variable_inputs.wf(),
        check_failure(construction@) is None ==> lanes::board_fits(construction@) && routing::sources_known(
            construction@,
        ),
    ensures
        is_certificate_result(construction@, files, result),
{
    let ghost c = construction@;
    let (logical_contracts, routing_contracts): (Vec<ContractValidationReport>, Vec<ContractValidationReport>) =
        match check_contracts() {
        Ok(found) => found,
        Err(error) => {
            return Err(error);
        },
    };
    let (instances, nets): (Vec<CertifiedInstance>, Vec<CertifiedNet>) = match check_structure(construction) {
        Ok(found) => found,
        Err(error) => {
            return Err(error);
        },
    };
    let routed: Result<RoutingWitness, RoutingError> = construct_routing_witness(files, construction);
    let ghost outcome = routed;
    let routing_witness: RoutingWitness = match routed {
        Ok(witness) => witness,
        Err(error) => {
            return Err(CertificateError::Routing { error });
        },
    };
    let input_boundary_certificate: InputBoundaryCertificate = match certify_input_boundary_encoding(
        construction,
        &routing_witness,
    ) {
        Ok(certificate) => certificate,
        Err(error) => {
            let refusal: CertificateError = CertificateError::Inputs { error };
            assert(is_certified(c, files, outcome, Err(refusal)));
            return Err(refusal);
        },
    };
    let dead_boundary_padding_certificate: DeadBoundaryPaddingCertificate = match certify_dead_boundary_padding(
        files,
        &routing_witness,
    ) {
        Ok(certificate) => certificate,
        Err(error) => {
            let refusal: CertificateError = CertificateError::Padding { error };
            assert(is_certified(c, files, outcome, Err(refusal)));
            return Err(refusal);
        },
    };
    let certificate: ConstructionCertificate = assemble(
        construction,
        instances,
        nets,
        logical_contracts,
        routing_contracts,
        routing_witness,
        input_boundary_certificate,
        dead_boundary_padding_certificate,
    );
    assert(is_certified(c, files, outcome, Ok(certificate)));
    Ok(certificate)
}

/// Puts the parts of a certificate together.
fn assemble(
    construction: &CompiledConstruction,
    instances: Vec<CertifiedInstance>,
    nets: Vec<CertifiedNet>,
    logical_contracts: Vec<ContractValidationReport>,
    routing_contracts: Vec<ContractValidationReport>,
    routing_witness: RoutingWitness,
    input_boundary_certificate: InputBoundaryCertificate,
    dead_boundary_padding_certificate: DeadBoundaryPaddingCertificate,
) -> (certificate: ConstructionCertificate)
    requires
        structure_failure(construction@) is None,
        instances@.len() == construction@.instances.len(),
        forall|i: int|
            0 <= i < instances@.len() ==> certifies_instance(#[trigger] instances@[i], construction@.instances[i]),
        nets@.len() == construction@.nets.len(),
        forall|i: int| 0 <= i < nets@.len() ==> certifies_net(#[trigger] nets@[i], construction@.nets[i]),
        contracts::is_validation_result(contracts::logical_contracts(), Ok(logical_contracts)),
        contracts::is_validation_result(contracts::routing_contracts(), Ok(routing_contracts)),
    ensures
        tells_structure(construction@, certificate),
        certificate.routing_witness == routing_witness,
        certificate.input_boundary_certificate == input_boundary_certificate,
        certificate.dead_boundary_padding_certificate == dead_boundary_padding_certificate,
{
    let (input_anchor_obligations, internal_route_obligations): (
        Vec<InputAnchorObligation>,
        Vec<NetRouteObligation>,
    ) = collect_obligations(construction);
    let remaining_obligations: Vec<&'static str> = vec![
        "Prove local horizontal interface lemmas for the connector families used by the routing witness.",
        "Prove local vertical interface lemmas for the vertical adjacency families used by the routing witness.",
    ];
    assert(name_texts(remaining_obligations@) =~= open_obligations());
    ConstructionCertificate {
        instances,
        nets,
        external_inputs: construction.input_variables(),
        logical_contracts,
        routing_contracts,
        input_anchor_obligations,
        internal_route_obligations,
        routing_basis_coverage: routing_basis_coverage(),
        routing_witness,
        input_boundary_certificate,
        dead_boundary_padding_certificate,
        interface_basis_complete: false,
        remaining_obligations,
    }
}

/// The names of the patterns of contracts.
pub open spec fn basis_names(reports: Seq<ContractValidationReport>) -> Seq<Seq<char>> {
    Seq::new(reports.len(), |i: int| reports[i].published_spec_name@)
}

/// The lines of obligations.
pub open spec fn obligation_lines(names: Seq<Seq<char>>) -> Seq<Seq<char>> {
    Seq::new(names.len(), |i: int| "  - "@ + names[i])
}

/// What is left to prove of the padding.
pub open spec fn padding_obligation() -> Seq<Seq<char>> {
    seq![
        "Prove the finite dead-boundary padding lemma that isolates the compiled construction on a finite board."@,
    ]
}

fn push_names(out: &mut String, reports: &Vec<ContractValidationReport>)
    ensures
        final(out)@ == old(out)@ + text::joined(basis_names(reports@), ", "@),
{
    let ghost parts = basis_names(reports@);
    let ghost start = out@;
    let mut k: usize = 0;
    assert(out@ =~= start + text::joined(parts.take(0), ", "@));
    while k < reports.len()
        invariant
            k <= reports@.len(),
            parts == basis_names(reports@),
            out@ == start + text::joined(parts.take(k as int), ", "@),
        decreases reports.len() - k,
    {
        proof {
            text::lemma_joined_step(parts, ", "@, k as int);
        }
        if k > 0 {
            out.append(", ");
        }
        out.append(reports[k].published_spec_name);
        assert(out@ =~= start + text::joined(parts.take(k + 1), ", "@));
        k += 1;
    }
    assert(parts.take(k as int) =~= parts);
}

/// Texts, each after a line break.
pub open spec fn broken(lines: Seq<Seq<char>>) -> Seq<char>
    decreases lines.len(),
{
    if lines.len() == 0 {
        Seq::empty()
    } else {
        broken(lines.drop_last()) + "\n"@ + lines.last()
    }
}

impl ConstructionCertificate {
    /// The lines that stand before those on the routing.
    pub open spec fn head_lines(&self) -> Seq<char> {
        "symbolic_certificate_valid=true logical_instances="@ + text::decimal(self.instances@.len())
            + " external_inputs="@ + text::decimal(self.external_inputs@.len()) + " nets="@ + text::decimal(
            self.nets@.len(),
        ) + " logical_contracts="@ + text::decimal(self.logical_contracts@.len()) + " routing_contracts="@
            + text::decimal(self.routing_contracts@.len()) + " remaining_obligations="@ + text::decimal(
            self.remaining_obligations@.len(),
        ) + "\nrouting_basis_rectilinear_complete="@ + text::bool_text(
            self.routing_basis_coverage.rectilinear_complete(),
        ) + " input_anchor_obligations="@ + text::decimal(self.input_anchor_obligations@.len())
            + " internal_route_obligations="@ + text::decimal(self.internal_route_obligations@.len()) + "\n"@
            + self.input_boundary_certificate.summary() + "\n"@ + self.dead_boundary_padding_certificate.summary()
            + "\ninterface_basis_complete="@ + text::bool_text(self.interface_basis_complete)
    }

    /// The summary of the certificate.
    pub open spec fn summary(&self) -> Seq<char> {
        self.head_lines() + broken(scan::lines(self.routing_witness.summary())) + "\nlogical_basis="@ + text::joined(
            basis_names(self.logical_contracts@),
            ", "@,
        ) + "\nrouting_basis="@ + text::joined(basis_names(self.routing_contracts@), ", "@)
            + "\nremaining_obligations:"@ + broken(obligation_lines(name_texts(self.remaining_obligations@)))
    }

    fn render_head(&self) -> (out: String)
        requires
            self.dead_boundary_padding_certificate.summable(),
        ensures
            out@ == self.head_lines(),
    {
        let mut out: String = "symbolic_certificate_valid=true logical_instances=".to_owned();
        push_usize(&mut out, self.instances.len());
        out.append(" external_inputs=");
        push_usize(&mut out, self.external_inputs.len());
        out.append(" nets=");
        push_usize(&mut out, self.nets.len());
        out.append(" logical_contracts=");
        push_usize(&mut out, self.logical_contracts.len());
        out.append(" routing_contracts=");
        push_usize(&mut out, self.routing_contracts.len());
        out.append(" remaining_obligations=");
        push_usize(&mut out, self.remaining_obligations.len());
        out.append("\nrouting_basis_rectilinear_complete=");
        push_bool(&mut out, self.routing_basis_coverage.is_rectilinear_complete());
        out.append(" input_anchor_obligations=");
        push_usize(&mut out, self.input_anchor_obligations.len());
        out.append(" internal_route_obligations=");
        push_usize(&mut out, self.internal_route_obligations.len());
        out.append("\n");
        out.append(self.input_boundary_certificate.render_summary().as_str());
        out.append("\n");
        out.append(self.dead_boundary_padding_certificate.render_summary().as_str());
        out.append("\ninterface_basis_complete=");
        push_bool(&mut out, self.interface_basis_complete);
        out
    }

    /// The summary of the certificate.
    pub fn render_summary(&self) -> (summary: String)
        requires
            self.dead_boundary_padding_certificate.summable(),
            self.routing_witness.measurable(),
        ensures
            summary@ == self.summary(),
    {
        let mut out: String = self.render_head();
        let ghost head = out@;
        let route_lines: Vec<Vec<char>> = split_lines(&chars_of(self.routing_witness.render_summary().as_str()));
        let ghost lines = scan::lines(self.routing_witness.summary());
        let mut k: usize = 0;
        assert(out@ =~= head + broken(lines.take(0)));
        while k < route_lines.len()
            invariant
                k <= route_lines@.len(),
                scan::rows_of(route_lines@) == lines,
                out@ == head + broken(lines.take(k as int)),
            decreases route_lines.len() - k,
        {
            assert(lines[k as int] == route_lines@[k as int]@);
            out.append("\n");
            out.append(string_of(&route_lines[k]).as_str());
            assert(lines.take(k + 1).drop_last() =~= lines.take(k as int));
            assert(out@ =~= head + broken(lines.take(k + 1)));
            k += 1;
        }
        assert(lines.take(k as int) =~= lines);
        out.append("\nlogical_basis=");
        push_names(&mut out, &self.logical_contracts);
        out.append("\nrouting_basis=");
        push_names(&mut out, &self.routing_contracts);
        out.append("\nremaining_obligations:");
        let ghost middle = out@;
        let ghost rest = obligation_lines(name_texts(self.remaining_obligations@));
        let mut i: usize = 0;
        assert(out@ =~= middle + broken(rest.take(0)));
        while i < self.remaining_obligations.len()
            invariant
                i <= self.remaining_obligations@.len(),
                rest == obligation_lines(name_texts(self.remaining_obligations@)),
                out@ == middle + broken(rest.take(i as int)),
            decreases self.remaining_obligations.len() - i,
        {
            out.append("\n");
            out.append("  - ");
            out.append(self.remaining_obligations[i]);
            assert(rest.take(i + 1).drop_last() =~= rest.take(i as int));
            assert(rest[i as int] =~= "  - "@ + self.remaining_obligations@[i as int]@);
            assert(out@ =~= middle + broken(rest.take(i + 1)));
            i += 1;
        }
        assert(rest.take(i as int) =~= rest);
        out
    }

    /// The result of attaching a certificate of interfaces, when the interfaces of the router
    /// were enumerated.
    pub open spec fn is_attached(
        self,
        basis: &InterfaceBasisCertificate,
        found: Result<RouterInterfaceBasis, BasisError>,
        result: Result<ConstructionCertificate, BasisError>,
    ) -> bool {
        match found {
            Err(error) => result matches Err(refusal) && refusal@ == error@,
            Ok(router) => {
                let across = interfaces::across_labels(router.horizontal@);
                let down = interfaces::down_labels(router.vertical@);
                let own_across = interfaces::across_labels(self.routing_witness.horizontal_families@);
                let own_down = interfaces::down_labels(self.routing_witness.vertical_families@);
                if !basis.covers(across, down) {
                    result matches Err(refusal) && basis.is_cover_result(across, down, "router basis"@, Err(refusal))
                } else if !basis.covers(own_across, own_down) {
                    result matches Err(refusal) && basis.is_cover_result(
                        own_across,
                        own_down,
                        "witness"@,
                        Err(refusal),
                    )
                } else {
                    result matches Ok(after) && after == (ConstructionCertificate {
                        interface_basis_complete: true,
                        remaining_obligations: after.remaining_obligations,
                        ..self
                    }) && name_texts(after.remaining_obligations@) == (if self.dead_boundary_padding_certificate.complete() {
                        Seq::empty()
                    } else {
                        padding_obligation()
                    })
                }
            },
        }
    }

    /// Attaches a certificate that covers all interfaces of the router, and those of this
    /// construction.
    pub fn with_interface_basis_certificate(
        self,
        files: &PatternFiles,
        basis: &InterfaceBasisCertificate,
    ) -> (result: Result<ConstructionCertificate, BasisError>)
        requires
            files.wf(),
            self.dead_boundary_padding_certificate.summable(),
        ensures
            exists|found: Result<RouterInterfaceBasis, BasisError>| #[trigger]
                interfaces::is_basis_result(files, found) && self.is_attached(basis, found, result),
    {
        let found: Result<RouterInterfaceBasis, BasisError> = enumerate_router_interface_basis(files);
        let ghost outcome = found;
        let router_basis: RouterInterfaceBasis = match found {
            Ok(router) => router,
            Err(error) => {
                return Err(error);
            },
        };
        match basis.covers_router_basis(&router_basis) {
            Ok(_) => {},
            Err(error) => {
                assert(self.is_attached(basis, outcome, Err(error)));
                return Err(error);
            },
        }
        match basis.covers_witness(&self.routing_witness) {
            Ok(_) => {},
            Err(error) => {
                assert(self.is_attached(basis, outcome, Err(error)));
                return Err(error);
            },
        }
        let mut after: ConstructionCertificate = self;
        let remaining: Vec<&'static str> = if after.dead_boundary_padding_certificate.is_complete() {
            let none: Vec<&'static str> = Vec::new();
            assert(name_texts(none@) =~= Seq::<Seq<char>>::empty());
            none
        } else {
            let one: Vec<&'static str> = vec![
                "Prove the finite dead-boundary padding lemma that isolates the compiled construction on a finite board.",
            ];
            assert(name_texts(one@) =~= padding_obligation());
            one
        };
        after.interface_basis_complete = true;
        after.remaining_obligations = remaining;
        assert(self.is_attached(basis, outcome, Ok(after)));
        Ok(after)
    }
}

} // verus!
