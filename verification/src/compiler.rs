//! The compiler from circuits to networks of gadgets.
//!
//! A construction lists gadget instances on a grid, the nets between their ports, the
//! instance that enforces the output, and the inputs that carry the variables.

use crate::circuit::{Circuit, CircuitModel, CircuitNode, CircuitNodeKind, CnfFormula, NodeModel};
use crate::circuit::CnfModel;
use crate::strmap::StrMap;
use crate::text::{push_bool, push_two_digits, push_usize, quoted, same_text};
use crate::text;
use crate::circuit;
use crate::seqs;
use vstd::prelude::*;

verus! {

/// The number of a gadget instance.
#[derive(Debug, Clone, Copy, PartialEq, Eq, PartialOrd, Ord, Hash, Structural)]
pub struct InstanceId(pub usize);

/// What an instance is, over texts.
pub enum MacroModel {
    InputPort(Seq<char>),
    NotGate,
    OrGate,
    Splitter,
    Enforcer,
}

/// What an instance is.
#[derive(Debug, PartialEq, Eq)]
pub enum MacroKind {
    InputPort { variable: String },
    NotGate,
    OrGate,
    Splitter,
    Enforcer,
}

impl View for MacroKind {
    type V = MacroModel;

    open spec fn view(&self) -> MacroModel {
        match *self {
            MacroKind::InputPort { variable } => MacroModel::InputPort(variable@),
            MacroKind::NotGate => MacroModel::NotGate,
            MacroKind::OrGate => MacroModel::OrGate,
            MacroKind::Splitter => MacroModel::Splitter,
            MacroKind::Enforcer => MacroModel::Enforcer,
        }
    }
}

/// The name of the published pattern that realises an instance.
pub open spec fn published_name(kind: MacroModel) -> Option<Seq<char>> {
    match kind {
        MacroModel::InputPort(_) => None,
        MacroModel::NotGate => Some("NOT gate tile"@),
        MacroModel::OrGate => Some("OR gate tile"@),
        MacroModel::Splitter => Some("splitter tile"@),
        MacroModel::Enforcer => Some("enforcer gadget"@),
    }
}

impl Clone for MacroKind {
    fn clone(&self) -> (copy: Self)
        ensures
            copy@ == self@,
    {
        match self {
            MacroKind::InputPort { variable } => MacroKind::InputPort { variable: variable.clone() },
            MacroKind::NotGate => MacroKind::NotGate,
            MacroKind::OrGate => MacroKind::OrGate,
            MacroKind::Splitter => MacroKind::Splitter,
            MacroKind::Enforcer => MacroKind::Enforcer,
        }
    }
}

impl MacroKind {
    /// The name of the published pattern that realises the instance.
    pub fn published_spec_name(&self) -> (name: Option<&'static str>)
        ensures
            match name {
                Some(text) => published_name(self@) == Some(text@),
                None => published_name(self@) is None,
            },
    {
        match self {
            MacroKind::InputPort { .. } => None,
            MacroKind::NotGate => Some("NOT gate tile"),
            MacroKind::OrGate => Some("OR gate tile"),
            MacroKind::Splitter => Some("splitter tile"),
            MacroKind::Enforcer => Some("enforcer gadget"),
        }
    }
}

/// A placed instance, over texts.
pub struct InstanceModel {
    pub id: nat,
    pub kind: MacroModel,
    pub column: nat,
    pub row: nat,
}

/// A placed instance.
#[derive(Debug, Clone, PartialEq, Eq)]
pub struct MacroInstance {
    pub id: InstanceId,
    pub kind: MacroKind,
    pub column: usize,
    pub row: usize,
}

impl View for MacroInstance {
    type V = InstanceModel;

    open spec fn view(&self) -> InstanceModel {
        InstanceModel {
            id: self.id.0 as nat,
            kind: self.kind@,
            column: self.column as nat,
            row: self.row as nat,
        }
    }
}

/// A port of an instance.
#[derive(Debug, Clone, Copy, PartialEq, Eq, PartialOrd, Ord, Hash)]
pub struct PortRef {
    pub instance: InstanceId,
    pub port: &'static str,
}

impl View for PortRef {
    type V = (nat, Seq<char>);

    open spec fn view(&self) -> (nat, Seq<char>) {
        (self.instance.0 as nat, self.port@)
    }
}

/// An end of a net, over texts.
pub enum EndpointModel {
    External(Seq<char>),
    Port(nat, Seq<char>),
}

/// An end of a net: an outside input, or a port of an instance.
#[derive(Debug, PartialEq, Eq, PartialOrd, Ord, Hash)]
pub enum Endpoint {
    ExternalInput { variable: String },
    InstancePort(PortRef),
}

impl View for Endpoint {
    type V = EndpointModel;

    open spec fn view(&self) -> EndpointModel {
        match *self {
            Endpoint::ExternalInput { variable } => EndpointModel::External(variable@),
            Endpoint::InstancePort(port) => EndpointModel::Port(port.instance.0 as nat, port.port@),
        }
    }
}

impl Clone for Endpoint {
    fn clone(&self) -> (copy: Self)
        ensures
            copy@ == self@,
    {
        match self {
            Endpoint::ExternalInput { variable } => Endpoint::ExternalInput { variable: variable.clone() },
            Endpoint::InstancePort(port) => Endpoint::InstancePort(*port),
        }
    }
}

impl Endpoint {
    /// Whether two ends are the same.
    pub fn same(&self, other: &Endpoint) -> (same: bool)
        ensures
            same == (self@ == other@),
    {
        match (self, other) {
            (Endpoint::ExternalInput { variable: a }, Endpoint::ExternalInput { variable: b }) => {
                same_text(a.as_str(), b.as_str())
            },
            (Endpoint::InstancePort(a), Endpoint::InstancePort(b)) => {
                a.instance.0 == b.instance.0 && same_text(a.port, b.port)
            },
            _ => false,
        }
    }
}

/// A net, over texts.
pub struct NetModel {
    pub from: EndpointModel,
    pub to: EndpointModel,
}

/// A net: the value of one end is carried to the other.
#[derive(Debug, Clone, PartialEq, Eq)]
pub struct Net {
    pub from: Endpoint,
    pub to: Endpoint,
}

impl View for Net {
    type V = NetModel;

    open spec fn view(&self) -> NetModel {
        NetModel { from: self.from@, to: self.to@ }
    }
}

/// A construction, over texts.
pub struct ConstructionModel {
    pub instances: Seq<InstanceModel>,
    pub nets: Seq<NetModel>,
    pub output_sink: nat,
    pub variables: Seq<Seq<char>>,
}

/// A network of gadgets.
#[derive(Debug, Clone, PartialEq, Eq)]
pub struct CompiledConstruction {
    pub instances: Vec<MacroInstance>,
    pub nets: Vec<Net>,
    pub output_sink: InstanceId,
    pub variable_inputs: StrMap<Endpoint>,
}

/// The instances, over texts.
pub open spec fn instance_models(instances: Seq<MacroInstance>) -> Seq<InstanceModel> {
    Seq::new(instances.len(), |i: int| instances[i]@)
}

/// The nets, over texts.
pub open spec fn net_models(nets: Seq<Net>) -> Seq<NetModel> {
    Seq::new(nets.len(), |i: int| nets[i]@)
}

impl View for CompiledConstruction {
    type V = ConstructionModel;

    open spec fn view(&self) -> ConstructionModel {
        ConstructionModel {
            instances: instance_models(self.instances@),
            nets: net_models(self.nets@),
            output_sink: self.output_sink.0 as nat,
            variables: self.variable_inputs.key_seq(),
        }
    }
}

/// The values that ends of nets carry.
pub type Values = Map<EndpointModel, bool>;

/// The end carries the value.
pub open spec fn carries(values: Values, end: EndpointModel, value: bool) -> bool {
    values.contains_key(end) && values[end] == value
}

/// Every variable carries its assigned value.
pub open spec fn feeds_inputs(
    values: Values,
    variables: Seq<Seq<char>>,
    assignment: Map<Seq<char>, bool>,
) -> bool {
    forall|i: int| 0 <= i < variables.len() ==> carries(
        values,
        EndpointModel::External(#[trigger] variables[i]),
        assignment[variables[i]],
    )
}

/// A net hands its value on.
pub open spec fn net_settled(values: Values, net: NetModel) -> bool {
    values.contains_key(net.from) ==> carries(values, net.to, values[net.from])
}

/// An instance puts out what its kind makes of what it is fed.
pub open spec fn instance_settled(values: Values, instance: InstanceModel) -> bool {
    let port = |name: Seq<char>| EndpointModel::Port(instance.id, name);
    match instance.kind {
        MacroModel::InputPort(variable) => values.contains_key(EndpointModel::External(variable)) ==> carries(
            values,
            port("out"@),
            values[EndpointModel::External(variable)],
        ),
        MacroModel::NotGate => values.contains_key(port("in"@)) ==> carries(
            values,
            port("out"@),
            !values[port("in"@)],
        ),
        MacroModel::OrGate => values.contains_key(port("lhs"@)) && values.contains_key(port("rhs"@))
            ==> carries(values, port("out"@), values[port("lhs"@)] || values[port("rhs"@)]),
        MacroModel::Splitter => values.contains_key(port("in"@)) ==> carries(
            values,
            port("out0"@),
            values[port("in"@)],
        ) && carries(values, port("out1"@), values[port("in"@)]),
        MacroModel::Enforcer => true,
    }
}

/// Values that the inputs, the nets and the instances agree on.
pub open spec fn consistent(
    construction: ConstructionModel,
    assignment: Map<Seq<char>, bool>,
    values: Values,
) -> bool {
    &&& feeds_inputs(values, construction.variables, assignment)
    &&& forall|i: int| 0 <= i < construction.nets.len() ==> net_settled(values, #[trigger] construction.nets[i])
    &&& forall|i: int|
        0 <= i < construction.instances.len() ==> instance_settled(values, #[trigger] construction.instances[i])
}

/// Every value of `small` is one of `large`.
pub open spec fn within(small: Values, large: Values) -> bool {
    forall|end: EndpointModel| #[trigger] small.contains_key(end) ==> carries(large, end, small[end])
}

/// The values that the inputs force, and no others.
pub open spec fn forced(
    construction: ConstructionModel,
    assignment: Map<Seq<char>, bool>,
    values: Values,
) -> bool {
    &&& consistent(construction, assignment, values)
    &&& forall|other: Values| #[trigger] consistent(construction, assignment, other) ==> within(values, other)
}

/// The value that reaches the enforcer; an enforcer that nothing reaches counts as false.
pub open spec fn sink_value(construction: ConstructionModel, values: Values) -> bool {
    carries(values, EndpointModel::Port(construction.output_sink, "in"@), true)
}

/// What a construction computes: the value that the inputs force at the enforcer, or
/// nothing where they force contradictory values.
pub open spec fn construction_value(
    construction: ConstructionModel,
    assignment: Map<Seq<char>, bool>,
) -> Option<bool> {
    if exists|values: Values| consistent(construction, assignment, values) {
        Some(sink_value(construction, choose|values: Values| forced(construction, assignment, values)))
    } else {
        None
    }
}

/// The forced values are unique.
pub proof fn lemma_forced_unique(
    construction: ConstructionModel,
    assignment: Map<Seq<char>, bool>,
    values: Values,
)
    requires
        forced(construction, assignment, values),
    ensures
        construction_value(construction, assignment) == Some(sink_value(construction, values)),
{
    let other = choose|other: Values| forced(construction, assignment, other);
    assert(forced(construction, assignment, other));
    assert(within(values, other));
    assert(within(other, values));
    let sink = EndpointModel::Port(construction.output_sink, "in"@);
    assert(values.contains_key(sink) ==> carries(other, sink, values[sink]));
    assert(other.contains_key(sink) ==> carries(values, sink, other[sink]));
}

/// How many of the first `k` nodes are gates at depth `depth`.
pub open spec fn gates_at_depth(nodes: Seq<NodeModel>, k: nat, depth: nat) -> nat
    decreases k,
{
    if k == 0 {
        0
    } else {
        gates_at_depth(nodes, (k - 1) as nat, depth) + (if nodes[k - 1].is_gate() && circuit::node_depth(
            nodes,
            (k - 1) as nat,
        ) == depth {
            1nat
        } else {
            0
        })
    }
}

/// The row of a gate: the gates of its depth are stacked in the order of the nodes.
pub open spec fn gate_row(nodes: Seq<NodeModel>, i: nat) -> nat {
    gates_at_depth(nodes, i, circuit::node_depth(nodes, i))
}

/// The kind of instance that realises a gate.
pub open spec fn gate_kind(node: NodeModel) -> MacroModel {
    if node is Not {
        MacroModel::NotGate
    } else {
        MacroModel::OrGate
    }
}

/// One instance for each gate among the first `k` nodes.
pub open spec fn gate_instances(nodes: Seq<NodeModel>, k: nat) -> Seq<InstanceModel>
    decreases k,
{
    if k == 0 {
        Seq::empty()
    } else {
        let earlier = gate_instances(nodes, (k - 1) as nat);
        if nodes[k - 1].is_gate() {
            earlier.push(
                InstanceModel {
                    id: earlier.len(),
                    kind: gate_kind(nodes[k - 1]),
                    column: circuit::node_depth(nodes, (k - 1) as nat) + 1,
                    row: gate_row(nodes, (k - 1) as nat),
                },
            )
        } else {
            earlier
        }
    }
}

/// The number of the instance that node `i` becomes.
pub open spec fn instance_of(nodes: Seq<NodeModel>, i: nat) -> nat {
    gate_instances(nodes, i).len()
}

/// The ports that the first `k` nodes feed from node `i`.
pub open spec fn consumers(nodes: Seq<NodeModel>, i: nat, k: nat) -> Seq<(nat, Seq<char>)>
    decreases k,
{
    if k == 0 {
        Seq::empty()
    } else {
        let earlier = consumers(nodes, i, (k - 1) as nat);
        let gate = instance_of(nodes, (k - 1) as nat);
        match nodes[k - 1] {
            NodeModel::Not(input) => if input == i {
                earlier.push((gate, "in"@))
            } else {
                earlier
            },
            NodeModel::Or(lhs, rhs) => {
                let left = if lhs == i {
                    earlier.push((gate, "lhs"@))
                } else {
                    earlier
                };
                if rhs == i {
                    left.push((gate, "rhs"@))
                } else {
                    left
                }
            },
            _ => earlier,
        }
    }
}

/// The instance that enforces the output.
pub open spec fn sink_instance(circuit: CircuitModel) -> nat {
    gate_instances(circuit.nodes, circuit.nodes.len()).len()
}

/// All ports that node `i` feeds: its consumers, and the enforcer where it is the output.
pub open spec fn targets_of(circuit: CircuitModel, i: nat) -> Seq<(nat, Seq<char>)> {
    let ports = consumers(circuit.nodes, i, circuit.nodes.len());
    if i == circuit.output {
        ports.push((sink_instance(circuit), "in"@))
    } else {
        ports
    }
}

/// The end at which the value of node `i` appears.
pub open spec fn source_of(nodes: Seq<NodeModel>, i: nat) -> EndpointModel {
    match nodes[i as int] {
        NodeModel::Input(name) => EndpointModel::External(name),
        NodeModel::Const(value) => EndpointModel::External(
            if value {
                "const_1"@
            } else {
                "const_0"@
            },
        ),
        _ => EndpointModel::Port(instance_of(nodes, i), "out"@),
    }
}

/// The column of the first splitter behind node `i`.
pub open spec fn splitter_column(nodes: Seq<NodeModel>, i: nat) -> nat {
    if nodes[i as int].is_gate() {
        circuit::node_depth(nodes, i) + 2
    } else {
        1
    }
}

/// A network in the making.
pub struct LayoutModel {
    pub instances: Seq<InstanceModel>,
    pub nets: Seq<NetModel>,
}

/// The rows of the instances that the ports belong to, added up.
pub open spec fn row_sum(instances: Seq<InstanceModel>, targets: Seq<(nat, Seq<char>)>) -> nat
    decreases targets.len(),
{
    if targets.len() == 0 {
        0
    } else {
        let gate = targets.last().0;
        row_sum(instances, targets.drop_last()) + (if gate < instances.len() {
            instances[gate as int].row
        } else {
            0
        })
    }
}

/// Carries a value to all targets: directly to one, through a tree of splitters to more.
pub open spec fn spread(
    layout: LayoutModel,
    source: EndpointModel,
    targets: Seq<(nat, Seq<char>)>,
    column: nat,
) -> LayoutModel
    decreases targets.len(),
{
    if targets.len() <= 1 {
        LayoutModel {
            instances: layout.instances,
            nets: layout.nets.push(
                NetModel { from: source, to: EndpointModel::Port(targets[0].0, targets[0].1) },
            ),
        }
    } else {
        let mid = (targets.len() / 2) as int;
        let splitter = layout.instances.len();
        let branched = LayoutModel {
            instances: layout.instances.push(
                InstanceModel {
                    id: splitter,
                    kind: MacroModel::Splitter,
                    column,
                    row: row_sum(layout.instances, targets) / targets.len(),
                },
            ),
            nets: layout.nets.push(NetModel { from: source, to: EndpointModel::Port(splitter, "in"@) }),
        };
        let left = spread(
            branched,
            EndpointModel::Port(splitter, "out0"@),
            targets.subrange(0, mid),
            column + 1,
        );
        spread(
            left,
            EndpointModel::Port(splitter, "out1"@),
            targets.subrange(mid, targets.len() as int),
            column + 1,
        )
    }
}

/// The gates and the enforcer, without nets.
pub open spec fn placed(circuit: CircuitModel) -> LayoutModel {
    let gates = gate_instances(circuit.nodes, circuit.nodes.len());
    LayoutModel {
        instances: gates.push(
            InstanceModel {
                id: gates.len(),
                kind: MacroModel::Enforcer,
                column: circuit::node_depth(circuit.nodes, circuit.output) + 2,
                row: if circuit.nodes[circuit.output as int].is_gate() {
                    gate_row(circuit.nodes, circuit.output)
                } else {
                    0
                },
            },
        ),
        nets: Seq::empty(),
    }
}

/// The network once the first `k` nodes are wired to their targets.
pub open spec fn wired(circuit: CircuitModel, k: nat) -> LayoutModel
    decreases k,
{
    if k == 0 {
        placed(circuit)
    } else {
        let earlier = wired(circuit, (k - 1) as nat);
        let node = (k - 1) as nat;
        let targets = targets_of(circuit, node);
        if targets.len() == 0 {
            earlier
        } else {
            spread(earlier, source_of(circuit.nodes, node), targets, splitter_column(circuit.nodes, node))
        }
    }
}

/// The construction of a circuit.
pub open spec fn compiled(circuit: CircuitModel) -> ConstructionModel {
    let layout = wired(circuit, circuit.nodes.len());
    ConstructionModel {
        instances: layout.instances,
        nets: layout.nets,
        output_sink: sink_instance(circuit),
        variables: circuit.variables,
    }
}

/// Why a construction cannot be evaluated.
#[derive(Debug)]
pub enum ConstructionError {
    /// An input variable has no value.
    MissingAssignment { variable: String },
    /// A net carries a value to an end that already has the other one.
    ConflictingValues { end: Endpoint, existing: bool, value: bool },
    /// An instance puts out a value on a port that already has the other one.
    ConflictingDerivedValues { end: Endpoint, existing: bool, value: bool },
}

/// Compiles formulas and circuits to constructions.
pub struct ConstructionCompiler;

/// The ports, over texts.
pub open spec fn port_models(ports: Seq<PortRef>) -> Seq<(nat, Seq<char>)> {
    Seq::new(ports.len(), |i: int| ports[i]@)
}

proof fn lemma_gates_at_depth_bound(nodes: Seq<NodeModel>, k: nat, depth: nat)
    ensures
        gates_at_depth(nodes, k, depth) <= k,
    decreases k,
{
    if k > 0 {
        lemma_gates_at_depth_bound(nodes, (k - 1) as nat, depth);
    }
}

proof fn lemma_consumers_len(nodes: Seq<NodeModel>, i: nat, k: nat)
    ensures
        consumers(nodes, i, k).len() <= 2 * k,
    decreases k,
{
    if k > 0 {
        lemma_consumers_len(nodes, i, (k - 1) as nat);
    }
}

struct LayoutExpansion {
    placements: Vec<MacroInstance>,
    nets: Vec<Net>,
}

impl View for LayoutExpansion {
    type V = LayoutModel;

    closed spec fn view(&self) -> LayoutModel {
        LayoutModel { instances: instance_models(self.placements@), nets: net_models(self.nets@) }
    }
}

impl LayoutExpansion {
    fn place(&mut self, kind: MacroKind, column: usize, row: usize) -> (id: InstanceId)
        ensures
            id.0 == old(self)@.instances.len(),
            final(self)@.instances == old(self)@.instances.push(
                InstanceModel { id: id.0 as nat, kind: kind@, column: column as nat, row: row as nat },
            ),
            final(self)@.nets == old(self)@.nets,
    {
        let id: InstanceId = InstanceId(self.placements.len());
        let ghost model = kind@;
        self.placements.push(MacroInstance { id, kind, column, row });
        assert(self@.instances =~= old(self)@.instances.push(
            InstanceModel { id: id.0 as nat, kind: model, column: column as nat, row: row as nat },
        ));
        id
    }

    fn connect(&mut self, from: Endpoint, to: PortRef)
        ensures
            final(self)@.instances == old(self)@.instances,
            final(self)@.nets == old(self)@.nets.push(
                NetModel { from: from@, to: EndpointModel::Port(to@.0, to@.1) },
            ),
    {
        let ghost source = from@;
        self.nets.push(Net { from, to: Endpoint::InstancePort(to) });
        assert(self@.nets =~= old(self)@.nets.push(
            NetModel { from: source, to: EndpointModel::Port(to@.0, to@.1) },
        ));
    }

    fn expand_splitter_tree(&mut self, source: Endpoint, targets: Vec<PortRef>, start_column: usize)
        requires
            targets@.len() > 0,
            start_column + targets@.len() <= usize::MAX,
        ensures
            final(self)@ == spread(old(self)@, source@, port_models(targets@), start_column as nat),
        decreases targets@.len(),
    {
        let ghost all = port_models(targets@);
        let ghost origin = source@;
        if targets.len() == 1 {
            self.connect(source, targets[0]);
            return;
        }
        let n: usize = targets.len();
        let mid: usize = n / 2;
        let row: usize = self.average_target_row(&targets);
        let mut left_targets: Vec<PortRef> = targets;
        let right_targets: Vec<PortRef> = left_targets.split_off(mid);
        proof {
            assert(port_models(left_targets@) =~= all.subrange(0, mid as int));
            assert(port_models(right_targets@) =~= all.subrange(mid as int, n as int));
        }
        let splitter: InstanceId = self.place(MacroKind::Splitter, start_column, row);
        self.connect(source, PortRef { instance: splitter, port: "in" });
        self.expand_splitter_tree(
            Endpoint::InstancePort(PortRef { instance: splitter, port: "out0" }),
            left_targets,
            start_column + 1,
        );
        self.expand_splitter_tree(
            Endpoint::InstancePort(PortRef { instance: splitter, port: "out1" }),
            right_targets,
            start_column + 1,
        );
    }

    fn average_target_row(&self, targets: &Vec<PortRef>) -> (row: usize)
        requires
            targets@.len() > 0,
        ensures
            row == row_sum(self@.instances, port_models(targets@)) / targets@.len(),
    {
        let ghost all = port_models(targets@);
        let mut sum: u128 = 0;
        let mut i: usize = 0;
        proof {
            assert(all.take(0) =~= Seq::<(nat, Seq<char>)>::empty());
        }
        while i < targets.len()
            invariant
                i <= targets@.len(),
                all == port_models(targets@),
                sum == row_sum(self@.instances, all.take(i as int)),
                sum <= i * usize::MAX,
            decreases targets.len() - i,
        {
            let row: usize = self.target_row(&targets[i]);
            proof {
                assert(all.take(i + 1).drop_last() =~= all.take(i as int));
                assert(all.take(i + 1).last() == targets@[i as int]@);
                assert(sum + row <= (i + 1) * usize::MAX) by (nonlinear_arith)
                    requires
                        sum <= i * usize::MAX,
                        row <= usize::MAX,
                ;
                assert((i + 1) * usize::MAX <= u128::MAX) by (nonlinear_arith)
                    requires
                        i + 1 <= usize::MAX,
                        usize::MAX <= u64::MAX,
                ;
            }
            sum = sum + row as u128;
            i += 1;
        }
        proof {
            assert(all.take(i as int) =~= all);
            assert(sum / (i as u128) <= usize::MAX) by (nonlinear_arith)
                requires
                    sum <= i * usize::MAX,
                    i > 0,
            ;
        }
        let average: u128 = sum / (targets.len() as u128);
        average as usize
    }

    fn target_row(&self, target: &PortRef) -> (row: usize)
        ensures
            row == (if target@.0 < self@.instances.len() {
                self@.instances[target@.0 as int].row
            } else {
                0
            }),
    {
        if target.instance.0 < self.placements.len() {
            self.placements[target.instance.0].row
        } else {
            0
        }
    }
}

/// Each variable is the external input of its own name.
pub open spec fn are_external(inputs: Map<Seq<char>, Endpoint>) -> bool {
    forall|k: Seq<char>| #[trigger] inputs.contains_key(k) ==> inputs[k]@ == EndpointModel::External(k)
}

impl ConstructionCompiler {
    /// Compiles a formula: see `compiled` and `circuit_of`.
    pub fn compile_cnf(formula: &CnfFormula) -> (result: Result<CompiledConstruction, ConstructionError>)
        requires
            3 * circuit::circuit_of(formula@).nodes.len() + 4 <= usize::MAX,
        ensures
            result matches Ok(construction) && construction@ == compiled(circuit::circuit_of(formula@))
                && construction.variable_inputs.wf() && are_external(construction.variable_inputs@),
    {
        let circuit: Circuit = Circuit::from_cnf(formula);
        Self::compile_circuit(&circuit)
    }

    /// Compiles a circuit: see `compiled`.
    pub fn compile_circuit(circuit: &Circuit) -> (result: Result<CompiledConstruction, ConstructionError>)
        requires
            circuit.wf(),
            circuit@.wf(),
            3 * circuit@.nodes.len() + 4 <= usize::MAX,
        ensures
            result matches Ok(construction) && construction@ == compiled(circuit@)
                && construction.variable_inputs.wf() && are_external(construction.variable_inputs@),
    {
        let depths: Vec<usize> = circuit.depths();
        let nodes: &Vec<CircuitNode> = circuit.nodes();
        let inputs: &StrMap<crate::circuit::NodeId> = circuit.inputs();
        let ghost model = circuit@;
        let ghost models = circuit@.nodes;
        let n: usize = nodes.len();

        let mut variable_inputs: StrMap<Endpoint> = StrMap::new();
        let mut v: usize = 0;
        while v < inputs.len()
            invariant
                v <= inputs.key_seq().len(),
                inputs.wf(),
                variable_inputs.wf(),
                are_external(variable_inputs@),
                forall|k: Seq<char>| #[trigger] variable_inputs@.contains_key(k) <==> inputs.key_seq().take(
                    v as int,
                ).contains(k),
            decreases inputs.key_seq().len() - v,
        {
            let name: &String = inputs.key_at(v);
            variable_inputs.insert(name.clone(), Endpoint::ExternalInput { variable: name.clone() });
            proof {
                let keys = inputs.key_seq();
                assert forall|k: Seq<char>| #[trigger] variable_inputs@.contains_key(k) <==> keys.take(
                    v + 1,
                ).contains(k) by {
                    seqs::lemma_take_contains(keys, v as int, k);
                }
            }
            v += 1;
        }
        proof {
            let keys = inputs.key_seq();
            assert(keys.take(v as int) =~= keys);
            variable_inputs.lemma_entries();
            inputs.lemma_entries();
            assert(variable_inputs@.dom() =~= inputs@.dom()) by {
                assert forall|k: Seq<char>| variable_inputs@.dom().contains(k) == inputs@.dom().contains(k) by {
                    assert(variable_inputs@.contains_key(k) <==> keys.contains(k));
                    assert(inputs@.dom().contains(k) <==> keys.to_set().contains(k));
                }
            }
            variable_inputs.lemma_keys_fixed(inputs);
        }

        let mut layout: LayoutExpansion = LayoutExpansion { placements: Vec::new(), nets: Vec::new() };
        let mut rows_by_depth: Vec<usize> = Vec::new();
        let mut d: usize = 0;
        while d < n
            invariant
                d <= n,
                rows_by_depth@.len() == d,
                forall|i: int| 0 <= i < d ==> rows_by_depth@[i] == 0,
            decreases n - d,
        {
            rows_by_depth.push(0);
            d += 1;
        }
        let mut instance_by_node: Vec<usize> = Vec::new();
        let mut i: usize = 0;
        proof {
            assert(layout@.instances =~= gate_instances(models, 0));
            assert(layout@.nets =~= Seq::<NetModel>::empty());
        }
        while i < n
            invariant
                i <= n,
                n == nodes@.len(),
                n == models.len(),
                models == circuit::node_models(nodes@),
                3 * n + 4 <= usize::MAX,
                depths@.len() == n,
                forall|j: int| 0 <= j < n ==> #[trigger] depths@[j] == circuit::node_depth(models, j as nat),
                forall|j: int| 0 <= j < n ==> #[trigger] depths@[j] <= j,
                layout@.instances == gate_instances(models, i as nat),
                layout@.nets == Seq::<NetModel>::empty(),
                rows_by_depth@.len() == n,
                forall|j: int| 0 <= j < n ==> #[trigger] rows_by_depth@[j] == gates_at_depth(
                    models,
                    i as nat,
                    j as nat,
                ),
                instance_by_node@.len() == i,
                forall|j: int| 0 <= j < i ==> #[trigger] instance_by_node@[j] == instance_of(models, j as nat),
            decreases n - i,
        {
            let depth: usize = depths[i];
            let ghost rows_before = rows_by_depth@;
            assert(models[i as int] == nodes@[i as int].kind@);
            instance_by_node.push(layout.placements.len());
            let kind: Option<MacroKind> = match &nodes[i].kind {
                CircuitNodeKind::Input { .. } => None,
                CircuitNodeKind::Const { .. } => None,
                CircuitNodeKind::Not { .. } => Some(MacroKind::NotGate),
                CircuitNodeKind::Or { .. } => Some(MacroKind::OrGate),
            };
            if let Some(kind) = kind {
                let row: usize = rows_by_depth[depth];
                proof {
                    lemma_gates_at_depth_bound(models, i as nat, depth as nat);
                }
                let id: InstanceId = layout.place(kind, depth + 1, row);
                rows_by_depth.set(depth, row + 1);
            }
            proof {
                assert forall|j: int| 0 <= j < n implies #[trigger] rows_by_depth@[j] == gates_at_depth(
                    models,
                    (i + 1) as nat,
                    j as nat,
                ) by {
                    assert(rows_before[j] == gates_at_depth(models, i as nat, j as nat));
                }
            }
            i += 1;
        }

        let output: usize = circuit.output().0;
        let is_gate: bool = match &nodes[output].kind {
            CircuitNodeKind::Input { .. } => false,
            CircuitNodeKind::Const { .. } => false,
            CircuitNodeKind::Not { .. } => true,
            CircuitNodeKind::Or { .. } => true,
        };
        assert(models[output as int] == nodes@[output as int].kind@);
        let output_row: usize = if is_gate {
            proof {
                lemma_gate_at(models, output as nat, n as nat);
            }
            layout.placements[instance_by_node[output]].row
        } else {
            0
        };
        let sink: InstanceId = layout.place(MacroKind::Enforcer, depths[output] + 2, output_row);
        assert(layout@ == placed(model)) by {
            if is_gate {
                lemma_gate_at(models, output as nat, n as nat);
            }
        }

        let consumer_ports: Vec<Vec<PortRef>> = Self::collect_consumers(circuit, &instance_by_node);
        let mut k: usize = 0;
        while k < n
            invariant
                k <= n,
                n == nodes@.len(),
                n == models.len(),
                models == circuit::node_models(nodes@),
                models == model.nodes,
                3 * n + 4 <= usize::MAX,
                output == model.output,
                sink.0 == sink_instance(model),
                depths@.len() == n,
                forall|j: int| 0 <= j < n ==> #[trigger] depths@[j] == circuit::node_depth(models, j as nat),
                forall|j: int| 0 <= j < n ==> #[trigger] depths@[j] <= j,
                instance_by_node@.len() == n,
                forall|j: int| 0 <= j < n ==> #[trigger] instance_by_node@[j] == instance_of(models, j as nat),
                consumer_ports@.len() == n,
                forall|j: int| 0 <= j < n ==> port_models((#[trigger] consumer_ports@[j])@) == consumers(
                    models,
                    j as nat,
                    n as nat,
                ),
                layout@ == wired(model, k as nat),
            decreases n - k,
        {
            assert(models[k as int] == nodes@[k as int].kind@);
            let mut targets: Vec<PortRef> = copy_ports(&consumer_ports[k]);
            proof {
                lemma_consumers_len(models, k as nat, n as nat);
                assert(port_models(consumer_ports@[k as int]@).len() == consumer_ports@[k as int]@.len());
            }
            if k == output {
                let ghost before = targets@;
                targets.push(PortRef { instance: sink, port: "in" });
                assert(port_models(targets@) =~= port_models(before).push((sink.0 as nat, "in"@)));
            }
            assert(port_models(targets@) == targets_of(model, k as nat));
            if targets.len() > 0 {
                let source: Endpoint = match &nodes[k].kind {
                    CircuitNodeKind::Input { name } => Endpoint::ExternalInput { variable: name.clone() },
                    CircuitNodeKind::Const { value } => Endpoint::ExternalInput {
                        variable: if *value {
                            "const_1".to_owned()
                        } else {
                            "const_0".to_owned()
                        },
                    },
                    _ => Endpoint::InstancePort(
                        PortRef { instance: InstanceId(instance_by_node[k]), port: "out" },
                    ),
                };
                let column: usize = match &nodes[k].kind {
                    CircuitNodeKind::Input { .. } => 1,
                    CircuitNodeKind::Const { .. } => 1,
                    _ => depths[k] + 2,
                };
                layout.expand_splitter_tree(source, targets, column);
            }
            k += 1;
        }
        Ok(
            CompiledConstruction {
                instances: layout.placements,
                nets: layout.nets,
                output_sink: sink,
                variable_inputs,
            },
        )
    }

    /// The ports that each node feeds.
    fn collect_consumers(circuit: &Circuit, instance_by_node: &Vec<usize>) -> (ports: Vec<Vec<PortRef>>)
        requires
            circuit.wf(),
            circuit@.wf(),
            instance_by_node@.len() == circuit@.nodes.len(),
            forall|j: int|
                0 <= j < instance_by_node@.len() ==> #[trigger] instance_by_node@[j] == instance_of(
                    circuit@.nodes,
                    j as nat,
                ),
        ensures
            ports@.len() == circuit@.nodes.len(),
            forall|j: int|
                0 <= j < ports@.len() ==> port_models((#[trigger] ports@[j])@) == consumers(
                    circuit@.nodes,
                    j as nat,
                    circuit@.nodes.len(),
                ),
    {
        let nodes: &Vec<CircuitNode> = circuit.nodes();
        let ghost models = circuit@.nodes;
        let n: usize = nodes.len();
        let mut ports: Vec<Vec<PortRef>> = Vec::new();
        let mut d: usize = 0;
        while d < n
            invariant
                d <= n,
                ports@.len() == d,
                forall|j: int| 0 <= j < d ==> (#[trigger] ports@[j])@.len() == 0,
            decreases n - d,
        {
            ports.push(Vec::new());
            d += 1;
        }
        let mut k: usize = 0;
        proof {
            assert forall|j: int| 0 <= j < n implies port_models((#[trigger] ports@[j])@) == consumers(
                models,
                j as nat,
                0,
            ) by {
                assert(port_models(ports@[j]@) =~= Seq::<(nat, Seq<char>)>::empty());
            }
        }
        while k < n
            invariant
                k <= n,
                n == nodes@.len(),
                n == models.len(),
                models == circuit::node_models(nodes@),
                circuit::well_founded(models),
                instance_by_node@.len() == n,
                forall|j: int| 0 <= j < n ==> #[trigger] instance_by_node@[j] == instance_of(models, j as nat),
                ports@.len() == n,
                forall|j: int| 0 <= j < n ==> port_models((#[trigger] ports@[j])@) == consumers(
                    models,
                    j as nat,
                    k as nat,
                ),
            decreases n - k,
        {
            let ghost before = ports@;
            assert(models[k as int] == nodes@[k as int].kind@);
            let gate: InstanceId = InstanceId(instance_by_node[k]);
            match &nodes[k].kind {
                CircuitNodeKind::Input { .. } => {},
                CircuitNodeKind::Const { .. } => {},
                CircuitNodeKind::Not { input } => {
                    push_port(&mut ports, input.0, PortRef { instance: gate, port: "in" });
                },
                CircuitNodeKind::Or { lhs, rhs } => {
                    push_port(&mut ports, lhs.0, PortRef { instance: gate, port: "lhs" });
                    push_port(&mut ports, rhs.0, PortRef { instance: gate, port: "rhs" });
                },
            }
            proof {
                assert forall|j: int| 0 <= j < n implies port_models((#[trigger] ports@[j])@) == consumers(
                    models,
                    j as nat,
                    (k + 1) as nat,
                ) by {
                    assert(port_models(before[j]@) == consumers(models, j as nat, k as nat));
                }
            }
            k += 1;
        }
        ports
    }
}

/// Adds a port to one of the lists.
fn push_port(ports: &mut Vec<Vec<PortRef>>, i: usize, port: PortRef)
    requires
        i < old(ports)@.len(),
    ensures
        final(ports)@.len() == old(ports)@.len(),
        forall|j: int| 0 <= j < final(ports)@.len() ==> port_models((#[trigger] final(ports)@[j])@) == (if j == i {
            port_models(old(ports)@[j]@).push(port@)
        } else {
            port_models(old(ports)@[j]@)
        }),
{
    let ghost before = ports@;
    ports[i].push(port);
    assert(port_models(ports@[i as int]@) =~= port_models(before[i as int]@).push(port@));
}

/// A copy of a list of ports.
fn copy_ports(ports: &Vec<PortRef>) -> (copy: Vec<PortRef>)
    ensures
        copy@ == ports@,
{
    let mut copy: Vec<PortRef> = Vec::new();
    let mut i: usize = 0;
    while i < ports.len()
        invariant
            i <= ports@.len(),
            copy@ == ports@.take(i as int),
        decreases ports.len() - i,
    {
        copy.push(ports[i]);
        assert(copy@ =~= ports@.take(i + 1));
        i += 1;
    }
    assert(copy@ =~= ports@);
    copy
}

/// Where the instance of a gate stands in the list of all gates.
pub proof fn lemma_gate_at(nodes: Seq<NodeModel>, i: nat, k: nat)
    requires
        i < k,
        nodes[i as int].is_gate(),
    ensures
        instance_of(nodes, i) < gate_instances(nodes, k).len(),
        gate_instances(nodes, k)[instance_of(nodes, i) as int] == (InstanceModel {
            id: instance_of(nodes, i),
            kind: gate_kind(nodes[i as int]),
            column: circuit::node_depth(nodes, i) + 1,
            row: gate_row(nodes, i),
        }),
    decreases k,
{
    if i < k - 1 {
        lemma_gate_at(nodes, i, (k - 1) as nat);
    }
}

/// The names of the ports of one gate differ.
pub proof fn lemma_port_names()
    ensures
        "in"@ != "out"@,
        "lhs"@ != "out"@,
        "rhs"@ != "out"@,
        "lhs"@ != "rhs"@,
{
    reveal_strlit("in");
    reveal_strlit("out");
    reveal_strlit("lhs");
    reveal_strlit("rhs");
    assert("in"@[0] != "out"@[0]);
    assert("lhs"@[0] != "out"@[0]);
    assert("rhs"@[0] != "out"@[0]);
    assert("lhs"@[0] != "rhs"@[0]);
}

/// `small` is a prefix of `large`.
pub open spec fn begins<T>(small: Seq<T>, large: Seq<T>) -> bool {
    &&& small.len() <= large.len()
    &&& forall|i: int| 0 <= i < small.len() ==> large[i] == #[trigger] small[i]
}

pub proof fn lemma_begins_transitive<T>(a: Seq<T>, b: Seq<T>, c: Seq<T>)
    requires
        begins(a, b),
        begins(b, c),
    ensures
        begins(a, c),
{
    assert forall|i: int| 0 <= i < a.len() implies c[i] == #[trigger] a[i] by {
        assert(b[i] == a[i]);
    }
}

/// All instances from number `n` on are splitters that carry their own number.
pub open spec fn splitters_from(n: nat, instances: Seq<InstanceModel>) -> bool {
    forall|i: int|
        n <= i < instances.len() ==> (#[trigger] instances[i]).kind == MacroModel::Splitter && instances[i].id
            == i
}

/// What `spread` adds: splitters and nets.
pub proof fn lemma_spread_shape(
    layout: LayoutModel,
    source: EndpointModel,
    targets: Seq<(nat, Seq<char>)>,
    column: nat,
)
    requires
        targets.len() > 0,
    ensures
        begins(layout.instances, spread(layout, source, targets, column).instances),
        begins(layout.nets, spread(layout, source, targets, column).nets),
        splitters_from(layout.instances.len(), spread(layout, source, targets, column).instances),
    decreases targets.len(),
{
    if targets.len() > 1 {
        let mid = (targets.len() / 2) as int;
        let splitter = layout.instances.len();
        let branched = branch(layout, source, targets, column);
        let low = targets.subrange(0, mid);
        let high = targets.subrange(mid, targets.len() as int);
        lemma_spread_shape(branched, EndpointModel::Port(splitter, "out0"@), low, column + 1);
        let left = spread(branched, EndpointModel::Port(splitter, "out0"@), low, column + 1);
        lemma_spread_shape(left, EndpointModel::Port(splitter, "out1"@), high, column + 1);
        assert(left.instances[splitter as int] == branched.instances[splitter as int]);
        let all = spread(layout, source, targets, column);
        assert(all == spread(left, EndpointModel::Port(splitter, "out1"@), high, column + 1));
        lemma_begins_transitive(layout.instances, branched.instances, left.instances);
        lemma_begins_transitive(layout.instances, left.instances, all.instances);
        lemma_begins_transitive(layout.nets, branched.nets, left.nets);
        lemma_begins_transitive(layout.nets, left.nets, all.nets);
        assert forall|i: int| splitter <= i < all.instances.len() implies (#[trigger] all.instances[i]).kind
            == MacroModel::Splitter && all.instances[i].id == i by {
            if i < left.instances.len() {
                assert(all.instances[i] == left.instances[i]);
            }
        }
    }
}

/// The network after the first splitter of `spread`.
pub open spec fn branch(
    layout: LayoutModel,
    source: EndpointModel,
    targets: Seq<(nat, Seq<char>)>,
    column: nat,
) -> LayoutModel {
    let splitter = layout.instances.len();
    LayoutModel {
        instances: layout.instances.push(
            InstanceModel {
                id: splitter,
                kind: MacroModel::Splitter,
                column,
                row: row_sum(layout.instances, targets) / targets.len(),
            },
        ),
        nets: layout.nets.push(NetModel { from: source, to: EndpointModel::Port(splitter, "in"@) }),
    }
}

/// A splitter shows the same value at all its ports.
spec fn splitter_shows(f: spec_fn(EndpointModel) -> Option<bool>, splitter: nat, v: Option<bool>) -> bool {
    &&& f(EndpointModel::Port(splitter, "in"@)) == v
    &&& f(EndpointModel::Port(splitter, "out0"@)) == v
    &&& f(EndpointModel::Port(splitter, "out1"@)) == v
}

/// Where a source, its targets and the new splitters show one value, so do both ends of
/// every new net.
proof fn lemma_spread_ends(
    layout: LayoutModel,
    source: EndpointModel,
    targets: Seq<(nat, Seq<char>)>,
    column: nat,
    f: spec_fn(EndpointModel) -> Option<bool>,
    v: Option<bool>,
)
    requires
        targets.len() > 0,
        f(source) == v,
        forall|i: int|
            0 <= i < targets.len() ==> f(EndpointModel::Port((#[trigger] targets[i]).0, targets[i].1)) == v,
        forall|s: nat|
            layout.instances.len() <= s < spread(layout, source, targets, column).instances.len()
                ==> #[trigger] splitter_shows(f, s, v),
    ensures
        forall|k: int|
            layout.nets.len() <= k < spread(layout, source, targets, column).nets.len() ==> f(
                (#[trigger] spread(layout, source, targets, column).nets[k]).from,
            ) == v && f(spread(layout, source, targets, column).nets[k].to) == v,
    decreases targets.len(),
{
    if targets.len() > 1 {
        let mid = (targets.len() / 2) as int;
        let splitter = layout.instances.len();
        let branched = branch(layout, source, targets, column);
        let low = targets.subrange(0, mid);
        let high = targets.subrange(mid, targets.len() as int);
        let out0 = EndpointModel::Port(splitter, "out0"@);
        let out1 = EndpointModel::Port(splitter, "out1"@);
        let left = spread(branched, out0, low, column + 1);
        let all = spread(layout, source, targets, column);
        assert(all == spread(left, out1, high, column + 1));
        lemma_spread_shape(branched, out0, low, column + 1);
        lemma_spread_shape(left, out1, high, column + 1);
        assert(splitter_shows(f, splitter, v));
        assert forall|i: int| 0 <= i < high.len() implies f(
            EndpointModel::Port((#[trigger] high[i]).0, high[i].1),
        ) == v by {
            assert(high[i] == targets[mid + i]);
        }
        lemma_spread_ends(branched, out0, low, column + 1, f, v);
        lemma_spread_ends(left, out1, high, column + 1, f, v);
        assert forall|k: int| layout.nets.len() <= k < all.nets.len() implies f((#[trigger] all.nets[k]).from)
            == v && f(all.nets[k].to) == v by {
            if k < left.nets.len() {
                assert(all.nets[k] == left.nets[k]);
                if k < branched.nets.len() {
                    assert(left.nets[k] == branched.nets[k]);
                }
            }
        }
    }
}

/// Values that settle what `spread` adds carry the value of the source to all targets and
/// to all ports of the new splitters.
proof fn lemma_spread_carries(
    layout: LayoutModel,
    source: EndpointModel,
    targets: Seq<(nat, Seq<char>)>,
    column: nat,
    values: Values,
    b: bool,
)
    requires
        targets.len() > 0,
        carries(values, source, b),
        forall|k: int|
            layout.nets.len() <= k < spread(layout, source, targets, column).nets.len() ==> net_settled(
                values,
                #[trigger] spread(layout, source, targets, column).nets[k],
            ),
        forall|k: int|
            layout.instances.len() <= k < spread(layout, source, targets, column).instances.len()
                ==> instance_settled(values, #[trigger] spread(layout, source, targets, column).instances[k]),
    ensures
        forall|i: int|
            0 <= i < targets.len() ==> carries(
                values,
                EndpointModel::Port((#[trigger] targets[i]).0, targets[i].1),
                b,
            ),
        forall|s: nat|
            layout.instances.len() <= s < spread(layout, source, targets, column).instances.len()
                ==> #[trigger] splitter_carries(values, s, b),
    decreases targets.len(),
{
    let all = spread(layout, source, targets, column);
    if targets.len() == 1 {
        assert(all.nets[layout.nets.len() as int] == NetModel {
            from: source,
            to: EndpointModel::Port(targets[0].0, targets[0].1),
        });
    } else {
        let mid = (targets.len() / 2) as int;
        let splitter = layout.instances.len();
        let branched = branch(layout, source, targets, column);
        let low = targets.subrange(0, mid);
        let high = targets.subrange(mid, targets.len() as int);
        let out0 = EndpointModel::Port(splitter, "out0"@);
        let out1 = EndpointModel::Port(splitter, "out1"@);
        let left = spread(branched, out0, low, column + 1);
        assert(all == spread(left, out1, high, column + 1));
        lemma_spread_shape(branched, out0, low, column + 1);
        lemma_spread_shape(left, out1, high, column + 1);
        let first = layout.nets.len() as int;
        assert(all.nets[first] == left.nets[first]);
        assert(left.nets[first] == branched.nets[first]);
        assert(net_settled(values, all.nets[first]));
        assert(all.instances[splitter as int] == left.instances[splitter as int]);
        assert(left.instances[splitter as int] == branched.instances[splitter as int]);
        assert(instance_settled(values, all.instances[splitter as int]));
        assert(splitter_carries(values, splitter, b));
        assert forall|k: int| branched.nets.len() <= k < left.nets.len() implies net_settled(
            values,
            #[trigger] left.nets[k],
        ) by {
            assert(all.nets[k] == left.nets[k]);
        }
        assert forall|k: int| branched.instances.len() <= k < left.instances.len() implies instance_settled(
            values,
            #[trigger] left.instances[k],
        ) by {
            assert(all.instances[k] == left.instances[k]);
        }
        lemma_spread_carries(branched, out0, low, column + 1, values, b);
        lemma_spread_carries(left, out1, high, column + 1, values, b);
        assert forall|i: int| 0 <= i < targets.len() implies carries(
            values,
            EndpointModel::Port((#[trigger] targets[i]).0, targets[i].1),
            b,
        ) by {
            if i < mid {
                assert(low[i] == targets[i]);
            } else {
                assert(high[i - mid] == targets[i]);
            }
        }
    }
}

/// All ports of a splitter carry the value.
spec fn splitter_carries(values: Values, splitter: nat, b: bool) -> bool {
    &&& carries(values, EndpointModel::Port(splitter, "in"@), b)
    &&& carries(values, EndpointModel::Port(splitter, "out0"@), b)
    &&& carries(values, EndpointModel::Port(splitter, "out1"@), b)
}

/// The network only grows, by splitters, as more nodes are wired.
pub proof fn lemma_wired_grows(circuit: CircuitModel, j: nat, k: nat)
    requires
        j <= k,
    ensures
        begins(wired(circuit, j).instances, wired(circuit, k).instances),
        begins(wired(circuit, j).nets, wired(circuit, k).nets),
        splitters_from(wired(circuit, j).instances.len(), wired(circuit, k).instances),
    decreases k,
{
    if j < k {
        let prev = (k - 1) as nat;
        lemma_wired_grows(circuit, j, prev);
        let earlier = wired(circuit, prev);
        let targets = targets_of(circuit, prev);
        if targets.len() > 0 {
            lemma_spread_shape(
                earlier,
                source_of(circuit.nodes, prev),
                targets,
                splitter_column(circuit.nodes, prev),
            );
            let all = wired(circuit, k);
            let start = wired(circuit, j).instances;
            assert forall|i: int| start.len() <= i < all.instances.len() implies (#[trigger] all.instances[i]).kind
                == MacroModel::Splitter && all.instances[i].id == i by {
                if i < earlier.instances.len() {
                    assert(all.instances[i] == earlier.instances[i]);
                }
            }
        }
    }
}

/// Later gates have larger instance numbers.
pub proof fn lemma_instances_increase(nodes: Seq<NodeModel>, i: nat, j: nat)
    requires
        i <= j,
    ensures
        instance_of(nodes, i) <= instance_of(nodes, j),
        i < j && nodes[i as int].is_gate() ==> instance_of(nodes, i) < instance_of(nodes, j),
    decreases j,
{
    if i < j {
        lemma_instances_increase(nodes, i, (j - 1) as nat);
    }
}

/// Every gate instance belongs to a gate.
pub proof fn lemma_gate_of_instance(nodes: Seq<NodeModel>, k: nat, g: nat) -> (i: nat)
    requires
        g < gate_instances(nodes, k).len(),
    ensures
        i < k,
        nodes[i as int].is_gate(),
        instance_of(nodes, i) == g,
    decreases k,
{
    let prev = (k - 1) as nat;
    if g < gate_instances(nodes, prev).len() {
        lemma_gate_of_instance(nodes, prev, g)
    } else {
        prev
    }
}

/// A node's value where the outside inputs drive it: constants count as the outside input
/// that stands for them.
pub open spec fn driven_value(circuit: CircuitModel, i: nat, assignment: Map<Seq<char>, bool>) -> Option<bool>
    decreases i,
{
    if i < circuit.nodes.len() {
        match circuit.nodes[i as int] {
            NodeModel::Input(name) => Some(assignment[name]),
            NodeModel::Const(value) => {
                let name = if value {
                    "const_1"@
                } else {
                    "const_0"@
                };
                if circuit.variables.contains(name) {
                    Some(assignment[name])
                } else {
                    None
                }
            },
            NodeModel::Not(input) => if input < i {
                match driven_value(circuit, input, assignment) {
                    Some(value) => Some(!value),
                    None => None,
                }
            } else {
                None
            },
            NodeModel::Or(lhs, rhs) => if lhs < i && rhs < i {
                match (driven_value(circuit, lhs, assignment), driven_value(circuit, rhs, assignment)) {
                    (Some(l), Some(r)) => Some(l || r),
                    _ => None,
                }
            } else {
                None
            },
        }
    } else {
        None
    }
}

/// A gate that has the given instance.
spec fn is_gate_of(nodes: Seq<NodeModel>, i: nat, g: nat) -> bool {
    i < nodes.len() && nodes[i as int].is_gate() && instance_of(nodes, i) == g
}

/// The node whose splitter tree holds the given instance.
spec fn is_owner_of(circuit: CircuitModel, i: nat, s: nat) -> bool {
    i < circuit.nodes.len() && wired(circuit, i).instances.len() <= s < wired(
        circuit,
        i + 1,
    ).instances.len()
}

/// The value that shows at an end of a compiled circuit.
spec fn end_value(circuit: CircuitModel, assignment: Map<Seq<char>, bool>, end: EndpointModel) -> Option<bool> {
    let nodes = circuit.nodes;
    let sink = sink_instance(circuit);
    match end {
        EndpointModel::External(name) => if circuit.variables.contains(name) {
            Some(assignment[name])
        } else {
            None
        },
        EndpointModel::Port(instance, name) => if instance < sink {
            let i = choose|i: nat| is_gate_of(nodes, i, instance);
            if name == "out"@ {
                driven_value(circuit, i, assignment)
            } else {
                match nodes[i as int] {
                    NodeModel::Not(input) => if name == "in"@ {
                        driven_value(circuit, input, assignment)
                    } else {
                        None
                    },
                    NodeModel::Or(lhs, rhs) => if name == "lhs"@ {
                        driven_value(circuit, lhs, assignment)
                    } else if name == "rhs"@ {
                        driven_value(circuit, rhs, assignment)
                    } else {
                        None
                    },
                    _ => None,
                }
            }
        } else if instance == sink {
            if name == "in"@ {
                driven_value(circuit, circuit.output, assignment)
            } else {
                None
            }
        } else if exists|i: nat| is_owner_of(circuit, i, instance) {
            if name == "in"@ || name == "out0"@ || name == "out1"@ {
                driven_value(circuit, choose|i: nat| is_owner_of(circuit, i, instance), assignment)
            } else {
                None
            }
        } else {
            None
        },
    }
}

/// The values that show at all ends of a compiled circuit.
spec fn end_values(circuit: CircuitModel, assignment: Map<Seq<char>, bool>) -> Values {
    Map::new(
        |end: EndpointModel| end_value(circuit, assignment, end) is Some,
        |end: EndpointModel| end_value(circuit, assignment, end)->0,
    )
}

proof fn lemma_gate_unique(circuit: CircuitModel, i: nat)
    requires
        i < circuit.nodes.len(),
        circuit.nodes[i as int].is_gate(),
    ensures
        instance_of(circuit.nodes, i) < sink_instance(circuit),
        (choose|j: nat| is_gate_of(circuit.nodes, j, instance_of(circuit.nodes, i))) == i,
{
    let nodes = circuit.nodes;
    let g = instance_of(nodes, i);
    lemma_gate_at(nodes, i, nodes.len());
    assert(is_gate_of(nodes, i, g));
    let j = choose|j: nat| is_gate_of(nodes, j, g);
    assert(is_gate_of(nodes, j, g));
    if i < j {
        lemma_instances_increase(nodes, i, j);
    } else if j < i {
        lemma_instances_increase(nodes, j, i);
    }
}

proof fn lemma_owner_unique(circuit: CircuitModel, i: nat, s: nat)
    requires
        is_owner_of(circuit, i, s),
    ensures
        s > sink_instance(circuit),
        (choose|j: nat| is_owner_of(circuit, j, s)) == i,
{
    let j = choose|j: nat| is_owner_of(circuit, j, s);
    assert(is_owner_of(circuit, j, s));
    lemma_wired_grows(circuit, 0, i);
    if i < j {
        lemma_wired_grows(circuit, i + 1, j);
    } else if j < i {
        lemma_wired_grows(circuit, j + 1, i);
    }
}

/// Every consumer of a node is the input port of a later gate that names the node.
proof fn lemma_consumers_show(
    circuit: CircuitModel,
    a: Map<Seq<char>, bool>,
    i: nat,
    k: nat,
    t: int,
)
    requires
        circuit.wf(),
        k <= circuit.nodes.len(),
        0 <= t < consumers(circuit.nodes, i, k).len(),
    ensures
        end_value(
            circuit,
            a,
            EndpointModel::Port(consumers(circuit.nodes, i, k)[t].0, consumers(circuit.nodes, i, k)[t].1),
        ) == driven_value(circuit, i, a),
    decreases k,
{
    let prev = (k - 1) as nat;
    let earlier = consumers(circuit.nodes, i, prev);
    if t < earlier.len() {
        lemma_consumers_show(circuit, a, i, prev, t);
        assert(consumers(circuit.nodes, i, k)[t] == earlier[t]);
    } else {
        lemma_gate_unique(circuit, prev);
        lemma_port_names();
    }
}

/// A gate that names a node is among its consumers.
pub proof fn lemma_consumer_listed(nodes: Seq<NodeModel>, gate: nat, k: nat)
    requires
        gate < k <= nodes.len(),
    ensures
        match nodes[gate as int] {
            NodeModel::Not(input) => consumers(nodes, input, k).contains((instance_of(nodes, gate), "in"@)),
            NodeModel::Or(lhs, rhs) => consumers(nodes, lhs, k).contains((instance_of(nodes, gate), "lhs"@))
                && consumers(nodes, rhs, k).contains((instance_of(nodes, gate), "rhs"@)),
            _ => true,
        },
    decreases k,
{
    let prev = (k - 1) as nat;
    let g = instance_of(nodes, gate);
    match nodes[gate as int] {
        NodeModel::Not(input) => {
            lemma_consumers_grow(nodes, input, k, (g, "in"@));
            if gate < prev {
                lemma_consumer_listed(nodes, gate, prev);
            } else {
                assert(consumers(nodes, input, k).last() == (g, "in"@));
            }
        },
        NodeModel::Or(lhs, rhs) => {
            lemma_consumers_grow(nodes, lhs, k, (g, "lhs"@));
            lemma_consumers_grow(nodes, rhs, k, (g, "rhs"@));
            if gate < prev {
                lemma_consumer_listed(nodes, gate, prev);
            } else {
                let earlier = consumers(nodes, lhs, prev);
                assert(consumers(nodes, lhs, k)[earlier.len() as int] == (g, "lhs"@));
                assert(consumers(nodes, rhs, k).last() == (g, "rhs"@));
            }
        },
        _ => {},
    }
}

proof fn lemma_consumers_grow(nodes: Seq<NodeModel>, i: nat, k: nat, port: (nat, Seq<char>))
    requires
        k > 0,
    ensures
        consumers(nodes, i, (k - 1) as nat).contains(port) ==> consumers(nodes, i, k).contains(port),
{
    let earlier = consumers(nodes, i, (k - 1) as nat);
    let later = consumers(nodes, i, k);
    if earlier.contains(port) {
        let t = choose|t: int| 0 <= t < earlier.len() && earlier[t] == port;
        assert(later[t] == port);
    }
}

proof fn lemma_source_shows(circuit: CircuitModel, a: Map<Seq<char>, bool>, i: nat)
    requires
        circuit.wf(),
        i < circuit.nodes.len(),
    ensures
        end_value(circuit, a, source_of(circuit.nodes, i)) == driven_value(circuit, i, a),
{
    match circuit.nodes[i as int] {
        NodeModel::Input(name) => {
            assert(circuit.variables[i as int] == name);
            assert(circuit.variables.contains(name));
        },
        NodeModel::Const(_) => {},
        _ => {
            lemma_gate_unique(circuit, i);
        },
    }
}

/// The nets that wire node `i` show the node's value at both ends.
proof fn lemma_node_nets(circuit: CircuitModel, a: Map<Seq<char>, bool>, i: nat)
    requires
        circuit.wf(),
        i < circuit.nodes.len(),
    ensures
        forall|k: int|
            wired(circuit, i).nets.len() <= k < wired(circuit, i + 1).nets.len() ==> end_value(
                circuit,
                a,
                (#[trigger] wired(circuit, i + 1).nets[k]).from,
            ) == end_value(circuit, a, wired(circuit, i + 1).nets[k].to),
{
    let layout = wired(circuit, i);
    let targets = targets_of(circuit, i);
    let source = source_of(circuit.nodes, i);
    let column = splitter_column(circuit.nodes, i);
    let v = driven_value(circuit, i, a);
    let f = |end: EndpointModel| end_value(circuit, a, end);
    if targets.len() > 0 {
        lemma_source_shows(circuit, a, i);
        let ports = consumers(circuit.nodes, i, circuit.nodes.len());
        assert forall|t: int| 0 <= t < targets.len() implies f(
            EndpointModel::Port((#[trigger] targets[t]).0, targets[t].1),
        ) == v by {
            if t < ports.len() {
                assert(targets[t] == ports[t]);
                lemma_consumers_show(circuit, a, i, circuit.nodes.len(), t);
            }
        }
        assert forall|s: nat|
            layout.instances.len() <= s < spread(layout, source, targets, column).instances.len() implies
            #[trigger] splitter_shows(f, s, v) by {
            assert(is_owner_of(circuit, i, s));
            lemma_owner_unique(circuit, i, s);
        }
        lemma_spread_ends(layout, source, targets, column, f, v);
    }
}

/// All nets show the same value at both ends.
proof fn lemma_all_nets(circuit: CircuitModel, a: Map<Seq<char>, bool>, n: nat)
    requires
        circuit.wf(),
        n <= circuit.nodes.len(),
    ensures
        forall|k: int|
            0 <= k < wired(circuit, n).nets.len() ==> end_value(
                circuit,
                a,
                (#[trigger] wired(circuit, n).nets[k]).from,
            ) == end_value(circuit, a, wired(circuit, n).nets[k].to),
    decreases n,
{
    if n > 0 {
        let prev = (n - 1) as nat;
        lemma_all_nets(circuit, a, prev);
        lemma_node_nets(circuit, a, prev);
        lemma_wired_grows(circuit, prev, n);
        assert forall|k: int| 0 <= k < wired(circuit, n).nets.len() implies end_value(
            circuit,
            a,
            (#[trigger] wired(circuit, n).nets[k]).from,
        ) == end_value(circuit, a, wired(circuit, n).nets[k].to) by {
            if k < wired(circuit, prev).nets.len() {
                assert(wired(circuit, n).nets[k] == wired(circuit, prev).nets[k]);
            }
        }
    }
}

/// What the instances of a compiled circuit are.
pub proof fn lemma_instance_kinds(circuit: CircuitModel)
    ensures
        begins(placed(circuit).instances, compiled(circuit).instances),
        splitters_from(sink_instance(circuit) + 1, compiled(circuit).instances),
{
    lemma_wired_grows(circuit, 0, circuit.nodes.len());
}

/// Every splitter belongs to the tree of some node.
proof fn lemma_splitter_owned(circuit: CircuitModel, n: nat, s: nat) -> (i: nat)
    requires
        n <= circuit.nodes.len(),
        sink_instance(circuit) < s < wired(circuit, n).instances.len(),
    ensures
        i < n,
        is_owner_of(circuit, i, s),
    decreases n,
{
    let prev = (n - 1) as nat;
    if s < wired(circuit, prev).instances.len() {
        lemma_splitter_owned(circuit, prev, s)
    } else {
        prev
    }
}

/// The values that show at the ends are consistent.
proof fn lemma_end_values_consistent(circuit: CircuitModel, a: Map<Seq<char>, bool>)
    requires
        circuit.wf(),
    ensures
        consistent(compiled(circuit), a, end_values(circuit, a)),
{
    let m = end_values(circuit, a);
    let c = compiled(circuit);
    let nodes = circuit.nodes;
    let sink = sink_instance(circuit);
    assert forall|i: int| 0 <= i < c.variables.len() implies carries(
        m,
        EndpointModel::External(#[trigger] c.variables[i]),
        a[c.variables[i]],
    ) by {
        assert(circuit.variables.contains(c.variables[i]));
    }
    lemma_all_nets(circuit, a, nodes.len());
    assert forall|k: int| 0 <= k < c.nets.len() implies net_settled(m, #[trigger] c.nets[k]) by {
        assert(end_value(circuit, a, c.nets[k].from) == end_value(circuit, a, c.nets[k].to));
    }
    lemma_instance_kinds(circuit);
    lemma_port_names();
    assert forall|k: int| 0 <= k < c.instances.len() implies instance_settled(m, #[trigger] c.instances[k]) by {
        if k < sink {
            let i = lemma_gate_of_instance(nodes, nodes.len(), k as nat);
            lemma_gate_at(nodes, i, nodes.len());
            lemma_gate_unique(circuit, i);
            assert(placed(circuit).instances[k] == gate_instances(nodes, nodes.len())[k]);
            assert(c.instances[k] == placed(circuit).instances[k]);
        } else if k == sink {
            assert(c.instances[k] == placed(circuit).instances[k]);
        } else {
            assert(c.instances[k].kind == MacroModel::Splitter);
            let i = lemma_splitter_owned(circuit, nodes.len(), k as nat);
            lemma_owner_unique(circuit, i, k as nat);
        }
    }
}

/// Consistent values carry the driven value of a node to all that the node feeds.
proof fn lemma_node_carries(
    circuit: CircuitModel,
    a: Map<Seq<char>, bool>,
    values: Values,
    i: nat,
    b: bool,
)
    requires
        circuit.wf(),
        consistent(compiled(circuit), a, values),
        i < circuit.nodes.len(),
        carries(values, source_of(circuit.nodes, i), b),
    ensures
        forall|t: int|
            0 <= t < targets_of(circuit, i).len() ==> carries(
                values,
                EndpointModel::Port((#[trigger] targets_of(circuit, i)[t]).0, targets_of(circuit, i)[t].1),
                b,
            ),
        forall|s: nat| #[trigger] is_owner_of(circuit, i, s) ==> splitter_carries(values, s, b),
{
    let targets = targets_of(circuit, i);
    let layout = wired(circuit, i);
    let after = wired(circuit, i + 1);
    let c = compiled(circuit);
    if targets.len() > 0 {
        lemma_wired_grows(circuit, i + 1, circuit.nodes.len());
        assert forall|k: int| layout.nets.len() <= k < after.nets.len() implies net_settled(
            values,
            #[trigger] after.nets[k],
        ) by {
            assert(c.nets[k] == after.nets[k]);
        }
        assert forall|k: int| layout.instances.len() <= k < after.instances.len() implies instance_settled(
            values,
            #[trigger] after.instances[k],
        ) by {
            assert(c.instances[k] == after.instances[k]);
        }
        lemma_spread_carries(
            layout,
            source_of(circuit.nodes, i),
            targets,
            splitter_column(circuit.nodes, i),
            values,
            b,
        );
        assert forall|s: nat| #[trigger] is_owner_of(circuit, i, s) implies splitter_carries(values, s, b) by {
        }
    }
}

/// A consumer of a node is one of its targets.
proof fn lemma_consumer_is_target(circuit: CircuitModel, i: nat, port: (nat, Seq<char>)) -> (t: int)
    requires
        consumers(circuit.nodes, i, circuit.nodes.len()).contains(port),
    ensures
        0 <= t < targets_of(circuit, i).len(),
        targets_of(circuit, i)[t] == port,
{
    let ports = consumers(circuit.nodes, i, circuit.nodes.len());
    let t = choose|t: int| 0 <= t < ports.len() && ports[t] == port;
    assert(targets_of(circuit, i)[t] == port);
    t
}

/// Consistent values carry the driven value of a node at its source.
proof fn lemma_source_carries(
    circuit: CircuitModel,
    a: Map<Seq<char>, bool>,
    values: Values,
    i: nat,
)
    requires
        circuit.wf(),
        consistent(compiled(circuit), a, values),
        i < circuit.nodes.len(),
        driven_value(circuit, i, a) is Some,
    ensures
        carries(values, source_of(circuit.nodes, i), driven_value(circuit, i, a)->0),
    decreases i,
{
    let nodes = circuit.nodes;
    let c = compiled(circuit);
    match nodes[i as int] {
        NodeModel::Input(name) => {
            assert(circuit.variables[i as int] == name);
            assert(carries(values, EndpointModel::External(c.variables[i as int]), a[name]));
        },
        NodeModel::Const(value) => {
            let name = if value {
                "const_1"@
            } else {
                "const_0"@
            };
            let k = choose|k: int| 0 <= k < circuit.variables.len() && circuit.variables[k] == name;
            assert(carries(values, EndpointModel::External(c.variables[k]), a[name]));
        },
        NodeModel::Not(input) => {
            let g = instance_of(nodes, i);
            lemma_source_carries(circuit, a, values, input);
            lemma_node_carries(circuit, a, values, input, driven_value(circuit, input, a)->0);
            lemma_consumer_listed(nodes, i, nodes.len());
            let t = lemma_consumer_is_target(circuit, input, (g, "in"@));
            assert(targets_of(circuit, input)[t] == (g, "in"@));
            lemma_instance_kinds(circuit);
            lemma_gate_at(nodes, i, nodes.len());
            assert(placed(circuit).instances[g as int] == gate_instances(nodes, nodes.len())[g as int]);
            assert(c.instances[g as int] == placed(circuit).instances[g as int]);
            assert(instance_settled(values, c.instances[g as int]));
        },
        NodeModel::Or(lhs, rhs) => {
            let g = instance_of(nodes, i);
            lemma_source_carries(circuit, a, values, lhs);
            lemma_source_carries(circuit, a, values, rhs);
            lemma_node_carries(circuit, a, values, lhs, driven_value(circuit, lhs, a)->0);
            lemma_node_carries(circuit, a, values, rhs, driven_value(circuit, rhs, a)->0);
            lemma_consumer_listed(nodes, i, nodes.len());
            let t = lemma_consumer_is_target(circuit, lhs, (g, "lhs"@));
            let u = lemma_consumer_is_target(circuit, rhs, (g, "rhs"@));
            assert(targets_of(circuit, lhs)[t] == (g, "lhs"@));
            assert(targets_of(circuit, rhs)[u] == (g, "rhs"@));
            lemma_instance_kinds(circuit);
            lemma_gate_at(nodes, i, nodes.len());
            assert(placed(circuit).instances[g as int] == gate_instances(nodes, nodes.len())[g as int]);
            assert(c.instances[g as int] == placed(circuit).instances[g as int]);
            assert(instance_settled(values, c.instances[g as int]));
        },
    }
}

/// Consistent values carry what shows at every end.
proof fn lemma_end_carried(
    circuit: CircuitModel,
    a: Map<Seq<char>, bool>,
    values: Values,
    end: EndpointModel,
)
    requires
        circuit.wf(),
        consistent(compiled(circuit), a, values),
        end_value(circuit, a, end) is Some,
    ensures
        carries(values, end, end_value(circuit, a, end)->0),
{
    let nodes = circuit.nodes;
    let c = compiled(circuit);
    let sink = sink_instance(circuit);
    match end {
        EndpointModel::External(name) => {
            let k = choose|k: int| 0 <= k < circuit.variables.len() && circuit.variables[k] == name;
            assert(carries(values, EndpointModel::External(c.variables[k]), a[name]));
        },
        EndpointModel::Port(instance, name) => {
            if instance < sink {
                let i = lemma_gate_of_instance(nodes, nodes.len(), instance);
                lemma_gate_unique(circuit, i);
                if name == "out"@ {
                    lemma_source_carries(circuit, a, values, i);
                } else {
                    lemma_consumer_listed(nodes, i, nodes.len());
                    let operand = match nodes[i as int] {
                        NodeModel::Not(input) => input,
                        NodeModel::Or(lhs, rhs) => if name == "lhs"@ {
                            lhs
                        } else {
                            rhs
                        },
                        _ => 0,
                    };
                    lemma_source_carries(circuit, a, values, operand);
                    lemma_node_carries(circuit, a, values, operand, driven_value(circuit, operand, a)->0);
                    let t = lemma_consumer_is_target(circuit, operand, (instance, name));
                    assert(targets_of(circuit, operand)[t] == (instance, name));
                }
            } else if instance == sink {
                let i = circuit.output;
                lemma_source_carries(circuit, a, values, i);
                lemma_node_carries(circuit, a, values, i, driven_value(circuit, i, a)->0);
                let last = targets_of(circuit, i).len() - 1;
                assert(targets_of(circuit, i)[last] == (sink, "in"@));
            } else {
                let i = choose|i: nat| is_owner_of(circuit, i, instance);
                lemma_source_carries(circuit, a, values, i);
                lemma_node_carries(circuit, a, values, i, driven_value(circuit, i, a)->0);
                assert(splitter_carries(values, instance, driven_value(circuit, i, a)->0));
            }
        },
    }
}

/// What a compiled circuit computes is the driven value of its output.
pub proof fn law_compiled_value(circuit: CircuitModel, a: Map<Seq<char>, bool>)
    requires
        circuit.wf(),
    ensures
        construction_value(compiled(circuit), a) == Some(
            driven_value(circuit, circuit.output, a) == Some(true),
        ),
{
    let m = end_values(circuit, a);
    lemma_end_values_consistent(circuit, a);
    assert forall|other: Values| #[trigger] consistent(compiled(circuit), a, other) implies within(m, other) by {
        assert forall|end: EndpointModel| #[trigger] m.contains_key(end) implies carries(other, end, m[end]) by {
            lemma_end_carried(circuit, a, other, end);
        }
    }
    lemma_forced_unique(compiled(circuit), a, m);
}

/// Without an open constant, the driven value of a node is its value.
proof fn lemma_driven_is_wired(circuit: CircuitModel, a: Map<Seq<char>, bool>, i: nat, blank: bool)
    requires
        circuit.wf(),
        i < circuit.nodes.len(),
        forall|k: int| 0 <= k < circuit.variables.len() ==> a.contains_key(#[trigger] circuit.variables[k]),
        forall|k: int|
            0 <= k < circuit.nodes.len() && (#[trigger] circuit.nodes[k]) is Const ==> circuit.nodes[k]
                == NodeModel::Const(false) && circuit.variables.contains("const_0"@) && a["const_0"@] == blank,
    ensures
        driven_value(circuit, i, a) == Some(circuit::wired_value(circuit.nodes, i, a, blank)),
    decreases i,
{
    match circuit.nodes[i as int] {
        NodeModel::Input(name) => {
            assert(circuit.variables[i as int] == name);
        },
        NodeModel::Const(_) => {},
        NodeModel::Not(input) => {
            lemma_driven_is_wired(circuit, a, input, blank);
        },
        NodeModel::Or(lhs, rhs) => {
            lemma_driven_is_wired(circuit, a, lhs, blank);
            lemma_driven_is_wired(circuit, a, rhs, blank);
        },
    }
}

/// A driven value does not depend on the value of an open constant.
proof fn lemma_driven_fixes_value(circuit: CircuitModel, a: Map<Seq<char>, bool>, i: nat)
    requires
        circuit.wf(),
        i < circuit.nodes.len(),
        forall|k: int| 0 <= k < circuit.variables.len() ==> a.contains_key(#[trigger] circuit.variables[k]),
        !circuit.variables.contains("const_0"@),
        forall|k: int|
            0 <= k < circuit.nodes.len() && (#[trigger] circuit.nodes[k]) is Const ==> circuit.nodes[k]
                == NodeModel::Const(false),
        driven_value(circuit, i, a) is Some,
    ensures
        driven_value(circuit, i, a) == Some(circuit::wired_value(circuit.nodes, i, a, false)),
    decreases i,
{
    match circuit.nodes[i as int] {
        NodeModel::Input(name) => {
            assert(circuit.variables[i as int] == name);
        },
        NodeModel::Const(_) => {},
        NodeModel::Not(input) => {
            lemma_driven_fixes_value(circuit, a, input);
        },
        NodeModel::Or(lhs, rhs) => {
            lemma_driven_fixes_value(circuit, a, lhs);
            lemma_driven_fixes_value(circuit, a, rhs);
        },
    }
}

/// Every variable of the formula has a value.
pub open spec fn covers(a: Map<Seq<char>, bool>, formula: CnfModel) -> bool {
    forall|v: Seq<char>| #[trigger] circuit::cnf_mentions(formula, v) ==> a.contains_key(v)
}

/// The value that stands in for the empty clause: that of the variable `const_0` where
/// there is one.
pub open spec fn blank_value(a: Map<Seq<char>, bool>, formula: CnfModel) -> bool {
    circuit::cnf_mentions(formula, "const_0"@) && a["const_0"@]
}

/// What the construction of a formula computes: the conjunction of the clauses, where the
/// empty clause has the value of the input `const_0`; no value reaches the enforcer of the
/// formula without clauses.
pub proof fn law_formula_construction_value(formula: CnfModel, a: Map<Seq<char>, bool>)
    requires
        covers(a, formula),
    ensures
        construction_value(compiled(circuit::circuit_of(formula)), a) == Some(
            formula.len() > 0 && circuit::cnf_wired(formula, a, blank_value(a, formula)),
        ),
{
    let circuit = circuit::circuit_of(formula);
    let names = circuit::sorted_variables(formula);
    circuit::lemma_variables_exist(formula);
    circuit::lemma_circuit_of_wf(formula);
    law_compiled_value(circuit, a);
    assert forall|k: int| 0 <= k < circuit.variables.len() implies a.contains_key(
        #[trigger] circuit.variables[k],
    ) by {
        assert(names.contains(circuit.variables[k]));
    }
    assert(circuit.variables.contains("const_0"@) <==> circuit::cnf_mentions(formula, "const_0"@));
    if formula.len() == 0 {
        assert(!names.contains("const_1"@));
        assert(circuit.nodes[circuit.output as int] == NodeModel::Const(true));
    } else if forall|i: int| 0 <= i < formula.len() ==> (#[trigger] formula[i]).len() > 0 {
        circuit::lemma_circuit_of_tail(formula, false);
        let blank = blank_value(a, formula);
        assert forall|k: int| 0 <= k < circuit.nodes.len() implies !((#[trigger] circuit.nodes[k]) is Const) by {
            if k < names.len() {
                assert(circuit.nodes[k] == NodeModel::Input(names[k]));
            }
        }
        lemma_driven_is_wired(circuit, a, circuit.output, blank);
        circuit::lemma_circuit_wired(formula, a, blank);
    } else {
        circuit::lemma_circuit_of_tail(formula, true);
        assert forall|k: int|
            0 <= k < circuit.nodes.len() && (#[trigger] circuit.nodes[k]) is Const implies circuit.nodes[k]
            == NodeModel::Const(false) by {
            if k < names.len() {
                assert(circuit.nodes[k] == NodeModel::Input(names[k]));
            }
        }
        if circuit.variables.contains("const_0"@) {
            lemma_driven_is_wired(circuit, a, circuit.output, a["const_0"@]);
            circuit::lemma_circuit_wired(formula, a, a["const_0"@]);
        } else {
            let i = choose|i: int| 0 <= i < formula.len() && (#[trigger] formula[i]).len() == 0;
            assert(!circuit::clause_wired(formula[i], a, false));
            circuit::lemma_circuit_wired(formula, a, false);
            if driven_value(circuit, circuit.output, a) is Some {
                lemma_driven_fixes_value(circuit, a, circuit.output);
            }
        }
    }
}

/// The construction of a formula computes the formula's truth table. Left out are the
/// formula without clauses, whose enforcer no value reaches, and the assignments that make
/// an input named `const_0` stand for a true empty clause while all other clauses hold.
pub proof fn law_truth_table_preserved(formula: CnfModel, a: Map<Seq<char>, bool>)
    requires
        covers(a, formula),
        formula.len() > 0,
        !(!circuit::cnf_value(formula, a) && circuit::cnf_wired(formula, a, blank_value(a, formula))),
    ensures
        construction_value(compiled(circuit::circuit_of(formula)), a) == Some(circuit::cnf_value(formula, a)),
{
    law_formula_construction_value(formula, a);
    if circuit::cnf_value(formula, a) {
        assert forall|i: int| 0 <= i < formula.len() implies circuit::clause_wired(
            #[trigger] formula[i],
            a,
            blank_value(a, formula),
        ) by {
            assert(circuit::clause_value(formula[i], a));
        }
    }
}

/// No input named `const_0` stands for a true empty clause while all other clauses hold.
pub open spec fn blank_is_harmless(formula: CnfModel) -> bool {
    forall|a: Map<Seq<char>, bool>|
        covers(a, formula) && #[trigger] circuit::cnf_wired(formula, a, blank_value(a, formula)) ==> circuit::cnf_value(
            formula,
            a,
        )
}

/// An empty clause is harmless where no input is named `const_0`, and so is a formula whose
/// clauses all hold a literal.
pub proof fn law_blank_is_harmless(formula: CnfModel)
    requires
        !circuit::cnf_mentions(formula, "const_0"@) || forall|i: int|
            0 <= i < formula.len() ==> (#[trigger] formula[i]).len() > 0,
    ensures
        blank_is_harmless(formula),
{
    assert forall|a: Map<Seq<char>, bool>|
        covers(a, formula) && #[trigger] circuit::cnf_wired(
            formula,
            a,
            blank_value(a, formula),
        ) implies circuit::cnf_value(formula, a) by {
        if !circuit::cnf_value(formula, a) {
            let i = choose|i: int| 0 <= i < formula.len() && !circuit::clause_value(#[trigger] formula[i], a);
            assert(!circuit::clause_wired(formula[i], a, blank_value(a, formula)));
        }
    }
}

/// A formula is satisfiable if and only if its construction is. Left out are the formula
/// without clauses, whose enforcer no value reaches, and those where an input named `const_0`
/// stands for a true empty clause while all other clauses hold.
pub proof fn law_satisfiability_preserved(formula: CnfModel)
    requires
        formula.len() > 0,
        blank_is_harmless(formula),
    ensures
        (exists|a: Map<Seq<char>, bool>| covers(a, formula) && #[trigger] circuit::cnf_value(formula, a)) <==> (exists|
            a: Map<Seq<char>, bool>,
        |
            covers(a, formula) && #[trigger] construction_value(compiled(circuit::circuit_of(formula)), a) == Some(true)),
{
    assert forall|a: Map<Seq<char>, bool>| covers(a, formula) implies #[trigger] construction_value(
        compiled(circuit::circuit_of(formula)),
        a,
    ) == Some(circuit::cnf_value(formula, a)) by {
        law_truth_table_preserved(formula, a);
    }
    if exists|a: Map<Seq<char>, bool>| covers(a, formula) && #[trigger] circuit::cnf_value(formula, a) {
        let a = choose|a: Map<Seq<char>, bool>| covers(a, formula) && #[trigger] circuit::cnf_value(formula, a);
        assert(construction_value(compiled(circuit::circuit_of(formula)), a) == Some(true));
    }
    if exists|a: Map<Seq<char>, bool>|
        covers(a, formula) && #[trigger] construction_value(compiled(circuit::circuit_of(formula)), a) == Some(true) {
        let a = choose|a: Map<Seq<char>, bool>|
            covers(a, formula) && #[trigger] construction_value(compiled(circuit::circuit_of(formula)), a) == Some(true);
        assert(circuit::cnf_value(formula, a));
    }
}

/// The values found so far, by end.
struct EndpointValues {
    entries: Vec<(Endpoint, bool)>,
}

impl View for EndpointValues {
    type V = Values;

    closed spec fn view(&self) -> Values {
        Map::new(
            |end: EndpointModel| self.ends().contains(end),
            |end: EndpointModel| self.entries@[self.ends().index_of(end)].1,
        )
    }
}

impl EndpointValues {
    spec fn ends(&self) -> Seq<EndpointModel> {
        Seq::new(self.entries@.len(), |i: int| self.entries@[i].0@)
    }

    spec fn wf(&self) -> bool {
        self.ends().no_duplicates()
    }

    proof fn lemma_entry(&self, i: int)
        requires
            self.wf(),
            0 <= i < self.entries@.len(),
        ensures
            carries(self@, self.entries@[i].0@, self.entries@[i].1),
    {
        assert(self.ends()[i] == self.entries@[i].0@);
        assert(self.ends().contains(self.entries@[i].0@));
    }

    proof fn lemma_size(&self)
        requires
            self.wf(),
        ensures
            self@.dom().finite(),
            self@.dom().len() == self.entries@.len(),
    {
        assert(self@.dom() =~= self.ends().to_set());
        self.ends().unique_seq_to_set();
        vstd::seq_lib::seq_to_set_is_finite(self.ends());
    }

    fn get(&self, end: &Endpoint) -> (value: Option<bool>)
        requires
            self.wf(),
        ensures
            value matches Some(v) ==> carries(self@, end@, v),
            value is None ==> !self@.contains_key(end@),
    {
        let mut i: usize = 0;
        while i < self.entries.len()
            invariant
                i <= self.entries@.len(),
                self.wf(),
                forall|j: int| 0 <= j < i ==> (#[trigger] self.ends()[j]) != end@,
            decreases self.entries.len() - i,
        {
            assert(self.ends()[i as int] == self.entries@[i as int].0@);
            if self.entries[i].0.same(end) {
                proof {
                    self.lemma_entry(i as int);
                }
                return Some(self.entries[i].1);
            }
            i += 1;
        }
        None
    }

    fn insert(&mut self, end: Endpoint, value: bool)
        requires
            old(self).wf(),
            !old(self)@.contains_key(end@),
        ensures
            final(self).wf(),
            final(self)@ == old(self)@.insert(end@, value),
            final(self).entries@.len() == old(self).entries@.len() + 1,
    {
        let ghost before = *self;
        let ghost name = end@;
        self.entries.push((end, value));
        proof {
            assert(self.ends() =~= before.ends().push(name));
            assert(!before.ends().contains(name));
            assert(self.wf());
            assert forall|e: EndpointModel| self@.contains_key(e) == before@.insert(name, value).contains_key(e) by {
                if before.ends().contains(e) {
                    let i = choose|i: int| 0 <= i < before.ends().len() && before.ends()[i] == e;
                    assert(self.ends()[i] == e);
                }
                assert(self.ends()[before.ends().len() as int] == name);
                if self.ends().contains(e) && e != name {
                    let i = choose|i: int| 0 <= i < self.ends().len() && self.ends()[i] == e;
                    assert(before.ends()[i] == e);
                }
            }
            assert forall|e: EndpointModel| self@.contains_key(e) implies self@[e] == before@.insert(
                name,
                value,
            )[e] by {
                let i = choose|i: int| 0 <= i < self.ends().len() && self.ends()[i] == e;
                self.lemma_entry(i);
                if e != name {
                    assert(before.ends()[i] == e);
                    before.lemma_entry(i);
                }
            }
            assert(self@ =~= before@.insert(name, value));
        }
    }
}

/// All ends that can get a value: the variables, the targets of nets, the ports of instances.
spec fn reachable_ends(construction: ConstructionModel) -> Set<EndpointModel> {
    construction.variables.map_values(|v: Seq<char>| EndpointModel::External(v)).to_set().union(
        construction.nets.map_values(|net: NetModel| net.to).to_set(),
    ).union(
        construction.instances.map_values(|i: InstanceModel| EndpointModel::Port(i.id, "out"@)).to_set(),
    ).union(
        construction.instances.map_values(|i: InstanceModel| EndpointModel::Port(i.id, "out0"@)).to_set(),
    ).union(
        construction.instances.map_values(|i: InstanceModel| EndpointModel::Port(i.id, "out1"@)).to_set(),
    )
}

proof fn lemma_reachable_ends(construction: ConstructionModel)
    ensures
        reachable_ends(construction).finite(),
        forall|i: int|
            0 <= i < construction.variables.len() ==> reachable_ends(construction).contains(
                EndpointModel::External(#[trigger] construction.variables[i]),
            ),
        forall|i: int|
            0 <= i < construction.nets.len() ==> reachable_ends(construction).contains(
                (#[trigger] construction.nets[i]).to,
            ),
        forall|i: int|
            0 <= i < construction.instances.len() ==> {
                let id = (#[trigger] construction.instances[i]).id;
                &&& reachable_ends(construction).contains(EndpointModel::Port(id, "out"@))
                &&& reachable_ends(construction).contains(EndpointModel::Port(id, "out0"@))
                &&& reachable_ends(construction).contains(EndpointModel::Port(id, "out1"@))
            },
{
    let c = construction;
    let externals = c.variables.map_values(|v: Seq<char>| EndpointModel::External(v));
    let targets = c.nets.map_values(|net: NetModel| net.to);
    let out = c.instances.map_values(|i: InstanceModel| EndpointModel::Port(i.id, "out"@));
    let out0 = c.instances.map_values(|i: InstanceModel| EndpointModel::Port(i.id, "out0"@));
    let out1 = c.instances.map_values(|i: InstanceModel| EndpointModel::Port(i.id, "out1"@));
    vstd::seq_lib::seq_to_set_is_finite(externals);
    vstd::seq_lib::seq_to_set_is_finite(targets);
    vstd::seq_lib::seq_to_set_is_finite(out);
    vstd::seq_lib::seq_to_set_is_finite(out0);
    vstd::seq_lib::seq_to_set_is_finite(out1);
    assert forall|i: int| 0 <= i < c.variables.len() implies reachable_ends(c).contains(
        EndpointModel::External(#[trigger] c.variables[i]),
    ) by {
        assert(externals[i] == EndpointModel::External(c.variables[i]));
        assert(externals.contains(externals[i]));
    }
    assert forall|i: int| 0 <= i < c.nets.len() implies reachable_ends(c).contains((#[trigger] c.nets[i]).to) by {
        assert(targets[i] == c.nets[i].to);
        assert(targets.contains(targets[i]));
    }
    assert forall|i: int| 0 <= i < c.instances.len() implies {
        let id = (#[trigger] c.instances[i]).id;
        &&& reachable_ends(c).contains(EndpointModel::Port(id, "out"@))
        &&& reachable_ends(c).contains(EndpointModel::Port(id, "out0"@))
        &&& reachable_ends(c).contains(EndpointModel::Port(id, "out1"@))
    } by {
        let id = c.instances[i].id;
        assert(out[i] == EndpointModel::Port(id, "out"@));
        assert(out.contains(out[i]));
        assert(out0[i] == EndpointModel::Port(id, "out0"@));
        assert(out0.contains(out0[i]));
        assert(out1[i] == EndpointModel::Port(id, "out1"@));
        assert(out1.contains(out1[i]));
    }
}

/// Some variable has no value, and `variable` is the first of them.
pub open spec fn first_missing(
    variables: Seq<Seq<char>>,
    assignment: Map<Seq<char>, bool>,
    variable: Seq<char>,
) -> bool {
    exists|i: int|
        0 <= i < variables.len() && #[trigger] variables[i] == variable && !assignment.contains_key(
            variables[i],
        ) && forall|j: int| 0 <= j < i ==> assignment.contains_key(#[trigger] variables[j])
}

/// Every variable has a value.
pub open spec fn all_assigned(variables: Seq<Seq<char>>, assignment: Map<Seq<char>, bool>) -> bool {
    forall|i: int| 0 <= i < variables.len() ==> assignment.contains_key(#[trigger] variables[i])
}

/// The error names two different values of one end.
pub open spec fn is_conflict(error: ConstructionError) -> bool {
    match error {
        ConstructionError::MissingAssignment { .. } => false,
        ConstructionError::ConflictingValues { existing, value, .. } => existing != value,
        ConstructionError::ConflictingDerivedValues { existing, value, .. } => existing != value,
    }
}

/// `w` is one more than the largest number of a list, and one for the empty list.
pub open spec fn is_extent(w: nat, numbers: Seq<nat>) -> bool {
    if numbers.len() == 0 {
        w == 1
    } else {
        &&& forall|i: int| 0 <= i < numbers.len() ==> #[trigger] numbers[i] < w
        &&& exists|i: int| 0 <= i < numbers.len() && #[trigger] numbers[i] + 1 == w
    }
}

impl CompiledConstruction {
    /// The width and the height of the grid.
    pub fn bounds(&self) -> (size: (usize, usize))
        requires
            forall|i: int|
                0 <= i < self.instances@.len() ==> (#[trigger] self.instances@[i]).column < usize::MAX
                    && self.instances@[i].row < usize::MAX,
        ensures
            is_extent(size.0 as nat, self@.instances.map_values(|i: InstanceModel| i.column)),
            is_extent(size.1 as nat, self@.instances.map_values(|i: InstanceModel| i.row)),
    {
        let ghost columns = self@.instances.map_values(|i: InstanceModel| i.column);
        let ghost rows = self@.instances.map_values(|i: InstanceModel| i.row);
        let mut width: usize = 1;
        let mut height: usize = 1;
        let mut i: usize = 0;
        while i < self.instances.len()
            invariant
                i <= self.instances@.len(),
                columns == self@.instances.map_values(|i: InstanceModel| i.column),
                rows == self@.instances.map_values(|i: InstanceModel| i.row),
                forall|i: int|
                    0 <= i < self.instances@.len() ==> (#[trigger] self.instances@[i]).column < usize::MAX
                        && self.instances@[i].row < usize::MAX,
                width >= 1,
                height >= 1,
                forall|j: int| 0 <= j < i ==> #[trigger] columns[j] < width,
                forall|j: int| 0 <= j < i ==> #[trigger] rows[j] < height,
                i == 0 ==> width == 1 && height == 1,
                i > 0 ==> exists|j: int| 0 <= j < i && #[trigger] columns[j] + 1 == width,
                i > 0 ==> exists|j: int| 0 <= j < i && #[trigger] rows[j] + 1 == height,
            decreases self.instances.len() - i,
        {
            let column: usize = self.instances[i].column;
            let row: usize = self.instances[i].row;
            assert(columns[i as int] == column);
            assert(rows[i as int] == row);
            if i == 0 || column + 1 > width {
                width = column + 1;
            }
            if i == 0 || row + 1 > height {
                height = row + 1;
            }
            i += 1;
        }
        (width, height)
    }

    /// The variables in ascending order.
    pub fn input_variables(&self) -> (names: Vec<String>)
        ensures
            circuit::texts(names@) == self@.variables,
    {
        let mut names: Vec<String> = Vec::new();
        let mut k: usize = 0;
        while k < self.variable_inputs.len()
            invariant
                k <= self@.variables.len(),
                circuit::texts(names@) == self@.variables.take(k as int),
            decreases self@.variables.len() - k,
        {
            let ghost before = names@;
            names.push(self.variable_inputs.key_at(k).clone());
            assert(circuit::texts(names@) =~= circuit::texts(before).push(self@.variables[k as int]));
            assert(circuit::texts(names@) =~= self@.variables.take(k + 1));
            k += 1;
        }
        assert(self@.variables.take(k as int) =~= self@.variables);
        names
    }

    /// The value that reaches the enforcer when the variables have the given values.
    ///
    /// Fails if a variable has no value, and if the values contradict each other.
    pub fn evaluate(&self, assignment: &StrMap<bool>) -> (result: Result<bool, ConstructionError>)
        requires
            assignment.wf(),
        ensures
            all_assigned(self@.variables, assignment@) ==> match result {
                Ok(value) => construction_value(self@, assignment@) == Some(value),
                Err(error) => construction_value(self@, assignment@) is None && is_conflict(error),
            },
            !all_assigned(self@.variables, assignment@) ==> (result matches Err(
                ConstructionError::MissingAssignment { variable },
            ) && first_missing(self@.variables, assignment@, variable@)),
    {
        let ghost model = self@;
        let ghost a = assignment@;
        let mut values: EndpointValues = EndpointValues { entries: Vec::new() };
        let names: Vec<String> = self.input_variables();
        let mut n: usize = 0;
        proof {
            assert(values.ends() =~= Seq::<EndpointModel>::empty());
            lemma_reachable_ends(model);
        }
        while n < names.len()
            invariant
                n <= names@.len(),
                assignment.wf(),
                model == self@,
                a == assignment@,
                model.variables == circuit::texts(names@),
                values.wf(),
                forall|i: int| 0 <= i < n ==> a.contains_key(#[trigger] model.variables[i]),
                forall|i: int|
                    0 <= i < n ==> carries(
                        values@,
                        EndpointModel::External(#[trigger] model.variables[i]),
                        a[model.variables[i]],
                    ),
                forall|e: EndpointModel| #[trigger] values@.contains_key(e) ==> exists|i: int|
                    0 <= i < n && e == EndpointModel::External(#[trigger] model.variables[i]) && values@[e]
                        == a[model.variables[i]],
            decreases names.len() - n,
        {
            let name: &String = &names[n];
            assert(model.variables[n as int] == name@);
            match assignment.get(name.as_str()) {
                Some(value) => {
                    let ghost before = values@;
                    let end: Endpoint = Endpoint::ExternalInput { variable: name.clone() };
                    match values.get(&end) {
                        Some(_) => {},
                        None => {
                            values.insert(end, *value);
                        },
                    }
                    proof {
                        assert forall|e: EndpointModel| #[trigger] values@.contains_key(e) implies exists|i: int|
                            0 <= i < n + 1 && e == EndpointModel::External(#[trigger] model.variables[i])
                                && values@[e] == a[model.variables[i]] by {
                            if before.contains_key(e) {
                                let i = choose|i: int|
                                    0 <= i < n && e == EndpointModel::External(#[trigger] model.variables[i])
                                        && before[e] == a[model.variables[i]];
                                assert(e == EndpointModel::External(model.variables[i]));
                            } else {
                                assert(e == EndpointModel::External(model.variables[n as int]));
                            }
                        }
                    }
                },
                None => {
                    assert(first_missing(model.variables, a, name@));
                    return Err(ConstructionError::MissingAssignment { variable: name.clone() });
                },
            }
            n += 1;
        }
        let ghost ends = reachable_ends(model);
        proof {
            assert forall|other: Values| #[trigger] consistent(model, a, other) implies within(values@, other) by {
                assert forall|e: EndpointModel| #[trigger] values@.contains_key(e) implies carries(
                    other,
                    e,
                    values@[e],
                ) by {
                    let i = choose|i: int|
                        0 <= i < n && e == EndpointModel::External(#[trigger] model.variables[i]) && values@[e]
                            == a[model.variables[i]];
                    assert(carries(other, EndpointModel::External(model.variables[i]), a[model.variables[i]]));
                }
            }
            assert(feeds_inputs(values@, model.variables, a));
            assert forall|e: EndpointModel| values@.dom().contains(e) implies ends.contains(e) by {
                assert(values@.contains_key(e));
            }
            values.lemma_size();
            vstd::set_lib::lemma_len_subset(values@.dom(), ends);
        }
        let mut changed: bool = true;
        while changed
            invariant
                model == self@,
                ends == reachable_ends(model),
                ends.finite(),
                values.wf(),
                values.entries@.len() <= ends.len(),
                values@.dom().subset_of(ends),
                feeds_inputs(values@, model.variables, a),
                forall|other: Values| #[trigger] consistent(model, a, other) ==> within(values@, other),
                !changed ==> consistent(model, a, values@),
                all_assigned(model.variables, a),
                a == assignment@,
            decreases
                    ends.len() - values.entries@.len(),
                    (if changed {
                        1int
                    } else {
                        0int
                    }),
        {
            changed = false;
            let ghost start = values@;
            let ghost size = values.entries@.len();
            let mut i: usize = 0;
            while i < self.nets.len()
                invariant
                    i <= self.nets@.len(),
                    model == self@,
                    ends == reachable_ends(model),
                    ends.finite(),
                    values.wf(),
                    values@.dom().subset_of(ends),
                    feeds_inputs(values@, model.variables, a),
                    forall|other: Values| #[trigger] consistent(model, a, other) ==> within(values@, other),
                    all_assigned(model.variables, a),
                    a == assignment@,
                    values.entries@.len() >= size,
                    changed ==> values.entries@.len() > size,
                    !changed ==> values@ == start && values.entries@.len() == size,
                    !changed ==> forall|k: int| 0 <= k < i ==> net_settled(start, #[trigger] model.nets[k]),
                decreases self.nets.len() - i,
            {
                let net: &Net = &self.nets[i];
                assert(model.nets[i as int] == net@);
                if let Some(value) = values.get(&net.from) {
                    match values.get(&net.to) {
                        Some(existing) => {
                            if existing != value {
                                proof {
                                    assert forall|other: Values| !consistent(model, a, other) by {
                                        if consistent(model, a, other) {
                                            assert(within(values@, other));
                                            assert(values@.contains_key(net.from@));
                                            assert(values@.contains_key(net.to@));
                                            assert(net_settled(other, model.nets[i as int]));
                                        }
                                    }
                                }
                                return Err(
                                    ConstructionError::ConflictingValues {
                                        end: net.to.clone(),
                                        existing,
                                        value,
                                    },
                                );
                            }
                        },
                        None => {
                            let ghost before = values@;
                            values.insert(net.to.clone(), value);
                            changed = true;
                            proof {
                                lemma_reachable_ends(model);
                                assert(ends.contains(model.nets[i as int].to));
                                assert forall|other: Values| #[trigger] consistent(model, a, other) implies within(
                                    values@,
                                    other,
                                ) by {
                                    assert(within(before, other));
                                    assert(before.contains_key(net.from@));
                                    assert(net_settled(other, model.nets[i as int]));
                                }
                            }
                        },
                    }
                }
                i += 1;
            }
            let mut j: usize = 0;
            while j < self.instances.len()
                invariant
                    j <= self.instances@.len(),
                    model == self@,
                    ends == reachable_ends(model),
                    ends.finite(),
                    values.wf(),
                    values@.dom().subset_of(ends),
                    feeds_inputs(values@, model.variables, a),
                    forall|other: Values| #[trigger] consistent(model, a, other) ==> within(values@, other),
                    all_assigned(model.variables, a),
                    a == assignment@,
                    values.entries@.len() >= size,
                    changed ==> values.entries@.len() > size,
                    !changed ==> values@ == start && values.entries@.len() == size,
                    !changed ==> forall|k: int|
                        0 <= k < model.nets.len() ==> net_settled(start, #[trigger] model.nets[k]),
                    !changed ==> forall|k: int|
                        0 <= k < j ==> instance_settled(start, #[trigger] model.instances[k]),
                decreases self.instances.len() - j,
            {
                let ghost before = values@;
                let instance: &MacroInstance = &self.instances[j];
                assert(model.instances[j as int] == instance@);
                match Self::derive_instance_outputs(instance, &mut values) {
                    Ok(derived) => {
                        proof {
                            lemma_reachable_ends(model);
                            assert forall|other: Values| #[trigger] consistent(model, a, other) implies within(
                                values@,
                                other,
                            ) by {
                                assert(within(before, other));
                                assert(instance_settled(other, model.instances[j as int]));
                            }
                            assert forall|e: EndpointModel| values@.dom().contains(e) implies ends.contains(e) by {
                                assert(values@.contains_key(e));
                            }
                            assert forall|k: int| 0 <= k < model.variables.len() implies carries(
                                values@,
                                EndpointModel::External(#[trigger] model.variables[k]),
                                a[model.variables[k]],
                            ) by {
                                assert(before.contains_key(EndpointModel::External(model.variables[k])));
                            }
                        }
                        if derived {
                            changed = true;
                        }
                    },
                    Err(error) => {
                        proof {
                            assert forall|other: Values| !consistent(model, a, other) by {
                                if consistent(model, a, other) {
                                    assert(within(before, other));
                                    assert(instance_settled(other, model.instances[j as int]));
                                }
                            }
                        }
                        return Err(error);
                    },
                }
                j += 1;
            }
            proof {
                values.lemma_size();
                vstd::set_lib::lemma_len_subset(values@.dom(), ends);
            }
        }
        proof {
            assert(forced(model, a, values@));
            lemma_forced_unique(model, a, values@);
        }
        let sink: Endpoint = Endpoint::InstancePort(PortRef { instance: self.output_sink, port: "in" });
        match values.get(&sink) {
            Some(value) => Ok(value),
            None => Ok(false),
        }
    }

    /// Puts out what the instance makes of the values that it is fed.
    fn derive_instance_outputs(
        instance: &MacroInstance,
        values: &mut EndpointValues,
    ) -> (result: Result<bool, ConstructionError>)
        requires
            old(values).wf(),
        ensures
            final(values).wf(),
            result matches Ok(changed) ==> {
                &&& within(old(values)@, final(values)@)
                &&& instance_settled(final(values)@, instance@)
                &&& forall|other: Values|
                    within(old(values)@, other) && instance_settled(other, instance@) ==> #[trigger] within(
                        final(values)@,
                        other,
                    )
                &&& forall|e: EndpointModel| #[trigger] final(values)@.contains_key(e) ==> old(
                    values,
                )@.contains_key(e) || e == EndpointModel::Port(instance@.id, "out"@) || e
                    == EndpointModel::Port(instance@.id, "out0"@) || e == EndpointModel::Port(
                    instance@.id,
                    "out1"@,
                )
                &&& final(values).entries@.len() >= old(values).entries@.len()
                &&& changed ==> final(values).entries@.len() > old(values).entries@.len()
                &&& !changed ==> final(values)@ == old(values)@ && final(values).entries@.len() == old(
                    values,
                ).entries@.len()
            },
            result matches Err(error) ==> is_conflict(error) && forall|other: Values|
                !(within(old(values)@, other) && #[trigger] instance_settled(other, instance@)),
    {
        proof {
            lemma_port_names();
            lemma_splitter_port_names();
        }
        let id: InstanceId = instance.id;
        let ghost start = values@;
        match &instance.kind {
            MacroKind::InputPort { variable } => {
                let end: Endpoint = Endpoint::ExternalInput { variable: variable.clone() };
                match values.get(&end) {
                    Some(value) => Self::set_instance_port(values, id, "out", value),
                    None => Ok(false),
                }
            },
            MacroKind::NotGate => {
                match Self::get_instance_port(values, id, "in") {
                    Some(value) => Self::set_instance_port(values, id, "out", !value),
                    None => Ok(false),
                }
            },
            MacroKind::OrGate => {
                let lhs: Option<bool> = Self::get_instance_port(values, id, "lhs");
                let rhs: Option<bool> = Self::get_instance_port(values, id, "rhs");
                match (lhs, rhs) {
                    (Some(lhs), Some(rhs)) => Self::set_instance_port(values, id, "out", lhs || rhs),
                    _ => Ok(false),
                }
            },
            MacroKind::Splitter => {
                match Self::get_instance_port(values, id, "in") {
                    Some(value) => {
                        match Self::set_instance_port(values, id, "out0", value) {
                            Ok(first) => {
                                let ghost middle = values@;
                                match Self::set_instance_port(values, id, "out1", value) {
                                    Ok(second) => Ok(first || second),
                                    Err(error) => {
                                        proof {
                                            assert forall|other: Values|
                                                !(within(start, other) && #[trigger] instance_settled(
                                                    other,
                                                    instance@,
                                                )) by {
                                                if within(start, other) && instance_settled(other, instance@) {
                                                    assert(within(middle, other));
                                                }
                                            }
                                        }
                                        Err(error)
                                    },
                                }
                            },
                            Err(error) => Err(error),
                        }
                    },
                    None => Ok(false),
                }
            },
            MacroKind::Enforcer => Ok(false),
        }
    }

    fn get_instance_port(values: &EndpointValues, instance: InstanceId, port: &'static str) -> (value: Option<bool>)
        requires
            values.wf(),
        ensures
            value matches Some(v) ==> carries(values@, EndpointModel::Port(instance.0 as nat, port@), v),
            value is None ==> !values@.contains_key(EndpointModel::Port(instance.0 as nat, port@)),
    {
        values.get(&Endpoint::InstancePort(PortRef { instance, port }))
    }

    fn set_instance_port(
        values: &mut EndpointValues,
        instance: InstanceId,
        port: &'static str,
        value: bool,
    ) -> (result: Result<bool, ConstructionError>)
        requires
            old(values).wf(),
        ensures
            final(values).wf(),
            result matches Ok(changed) ==> {
                &&& final(values)@ == old(values)@.insert(EndpointModel::Port(instance.0 as nat, port@), value)
                &&& changed == !old(values)@.contains_key(EndpointModel::Port(instance.0 as nat, port@))
                &&& old(values)@.contains_key(EndpointModel::Port(instance.0 as nat, port@)) ==> old(
                    values,
                )@[EndpointModel::Port(instance.0 as nat, port@)] == value
                &&& final(values).entries@.len() == old(values).entries@.len() + (if changed {
                    1int
                } else {
                    0int
                })
            },
            result matches Err(error) ==> is_conflict(error) && carries(
                old(values)@,
                EndpointModel::Port(instance.0 as nat, port@),
                !value,
            ),
    {
        let end: Endpoint = Endpoint::InstancePort(PortRef { instance, port });
        match values.get(&end) {
            Some(existing) => {
                if existing != value {
                    Err(ConstructionError::ConflictingDerivedValues { end, existing, value })
                } else {
                    assert(values@ =~= values@.insert(end@, value));
                    Ok(false)
                }
            },
            None => {
                values.insert(end, value);
                Ok(true)
            },
        }
    }
}

/// The names of the ports of a splitter differ.
proof fn lemma_splitter_port_names()
    ensures
        "in"@ != "out0"@,
        "in"@ != "out1"@,
        "out0"@ != "out1"@,
{
    reveal_strlit("in");
    reveal_strlit("out0");
    reveal_strlit("out1");
    assert("in"@[0] != "out0"@[0]);
    assert("in"@[0] != "out1"@[0]);
    assert("out0"@[3] != "out1"@[3]);
}

/// The `Debug` rendering of an end.
pub open spec fn end_text(end: EndpointModel) -> Seq<char> {
    match end {
        EndpointModel::External(variable) => "ExternalInput { variable: "@ + text::debug_text(variable) + " }"@,
        EndpointModel::Port(instance, port) => "InstancePort(PortRef { instance: InstanceId("@ + text::decimal(
            instance,
        ) + "), port: "@ + text::debug_text(port) + " })"@,
    }
}

/// The `Debug` rendering of an instance's kind.
pub open spec fn kind_text(kind: MacroModel) -> Seq<char> {
    match kind {
        MacroModel::InputPort(variable) => "InputPort { variable: "@ + text::debug_text(variable) + " }"@,
        MacroModel::NotGate => "NotGate"@,
        MacroModel::OrGate => "OrGate"@,
        MacroModel::Splitter => "Splitter"@,
        MacroModel::Enforcer => "Enforcer"@,
    }
}

/// One line of a blueprint: an instance with its number, its pattern and its place.
pub open spec fn instance_line(instance: InstanceModel) -> Seq<char> {
    "  #"@ + text::decimal_two(instance.id) + " "@ + kind_text(instance.kind) + " ["@ + (match published_name(
        instance.kind,
    ) {
        Some(name) => name,
        None => "<external>"@,
    }) + "] @ ("@ + text::decimal(instance.column) + ", "@ + text::decimal(instance.row) + ")"@
}

/// One line of a blueprint: a net.
pub open spec fn net_line(net: NetModel) -> Seq<char> {
    "  "@ + end_text(net.from) + " -> "@ + end_text(net.to)
}

/// A header, then one line for each instance.
pub open spec fn instance_lines(instances: Seq<InstanceModel>) -> Seq<char>
    decreases instances.len(),
{
    if instances.len() == 0 {
        "Instances:"@
    } else {
        instance_lines(instances.drop_last()) + "\n"@ + instance_line(instances.last())
    }
}

/// The given text, a header, then one line for each net.
pub open spec fn net_lines(head: Seq<char>, nets: Seq<NetModel>) -> Seq<char>
    decreases nets.len(),
{
    if nets.len() == 0 {
        head + "\nNets:"@
    } else {
        net_lines(head, nets.drop_last()) + "\n"@ + net_line(nets.last())
    }
}

impl Endpoint {
    /// The `Debug` rendering.
    pub(crate) fn rendered(&self) -> (line: String)
        ensures
            line@ == end_text(self@),
    {
        match self {
            Endpoint::ExternalInput { variable } => {
                let mut line: String = "ExternalInput { variable: ".to_owned();
                line.append(quoted(variable.as_str()).as_str());
                line.append(" }");
                line
            },
            Endpoint::InstancePort(port) => {
                let mut line: String = "InstancePort(PortRef { instance: InstanceId(".to_owned();
                push_usize(&mut line, port.instance.0);
                line.append("), port: ");
                line.append(quoted(port.port).as_str());
                line.append(" })");
                line
            },
        }
    }
}

impl MacroKind {
    /// The `Debug` rendering.
    pub(crate) fn rendered(&self) -> (line: String)
        ensures
            line@ == kind_text(self@),
    {
        match self {
            MacroKind::InputPort { variable } => {
                let mut line: String = "InputPort { variable: ".to_owned();
                line.append(quoted(variable.as_str()).as_str());
                line.append(" }");
                line
            },
            MacroKind::NotGate => "NotGate".to_owned(),
            MacroKind::OrGate => "OrGate".to_owned(),
            MacroKind::Splitter => "Splitter".to_owned(),
            MacroKind::Enforcer => "Enforcer".to_owned(),
        }
    }
}

impl MacroInstance {
    /// The instance's line in a blueprint.
    pub(crate) fn rendered(&self) -> (line: String)
        ensures
            line@ == instance_line(self@),
    {
        let mut line: String = "  #".to_owned();
        push_two_digits(&mut line, self.id.0);
        line.append(" ");
        line.append(self.kind.rendered().as_str());
        line.append(" [");
        match self.kind.published_spec_name() {
            Some(name) => line.append(name),
            None => line.append("<external>"),
        }
        line.append("] @ (");
        push_usize(&mut line, self.column);
        line.append(", ");
        push_usize(&mut line, self.row);
        line.append(")");
        line
    }
}

impl CompiledConstruction {
    /// A listing of the instances and the nets, one to a line.
    pub fn render_blueprint(&self) -> (blueprint: String)
        ensures
            blueprint@ == net_lines(instance_lines(self@.instances), self@.nets),
    {
        let mut out: String = "Instances:".to_owned();
        let ghost instances = self@.instances;
        let ghost nets = self@.nets;
        let mut i: usize = 0;
        assert(instances.take(0) =~= Seq::<InstanceModel>::empty());
        while i < self.instances.len()
            invariant
                i <= self.instances@.len(),
                instances == self@.instances,
                out@ == instance_lines(instances.take(i as int)),
            decreases self.instances.len() - i,
        {
            out.append("\n");
            out.append(self.instances[i].rendered().as_str());
            assert(instances.take(i + 1).drop_last() =~= instances.take(i as int));
            assert(instances.take(i + 1).last() == self.instances@[i as int]@);
            i += 1;
        }
        assert(instances.take(i as int) =~= instances);
        let ghost head = out@;
        out.append("\nNets:");
        let mut j: usize = 0;
        assert(nets.take(0) =~= Seq::<NetModel>::empty());
        while j < self.nets.len()
            invariant
                j <= self.nets@.len(),
                nets == self@.nets,
                out@ == net_lines(head, nets.take(j as int)),
            decreases self.nets.len() - j,
        {
            let mut line: String = "  ".to_owned();
            line.append(self.nets[j].from.rendered().as_str());
            line.append(" -> ");
            line.append(self.nets[j].to.rendered().as_str());
            out.append("\n");
            out.append(line.as_str());
            assert(nets.take(j + 1).drop_last() =~= nets.take(j as int));
            assert(nets.take(j + 1).last() == self.nets@[j as int]@);
            j += 1;
        }
        assert(nets.take(j as int) =~= nets);
        out
    }
}

impl ConstructionError {
    /// The message of the error.
    pub open spec fn message(&self) -> Seq<char> {
        match *self {
            ConstructionError::MissingAssignment { variable } => "Missing assignment for input '"@ + variable@
                + "'"@,
            ConstructionError::ConflictingValues { end, existing, value } => "Conflicting values on "@ + end_text(
                end@,
            ) + ": "@ + text::bool_text(existing) + " vs "@ + text::bool_text(value),
            ConstructionError::ConflictingDerivedValues { end, existing, value } => "Conflicting derived values on "@
                + end_text(end@) + ": "@ + text::bool_text(existing) + " vs "@ + text::bool_text(value),
        }
    }

    /// The message of the error.
    pub fn to_string(&self) -> (message: String)
        ensures
            message@ == self.message(),
    {
        match self {
            ConstructionError::MissingAssignment { variable } => {
                let mut out: String = "Missing assignment for input '".to_owned();
                out.append(variable.as_str());
                out.append("'");
                out
            },
            ConstructionError::ConflictingValues { end, existing, value } => {
                let mut out: String = "Conflicting values on ".to_owned();
                out.append(end.rendered().as_str());
                out.append(": ");
                push_bool(&mut out, *existing);
                out.append(" vs ");
                push_bool(&mut out, *value);
                out
            },
            ConstructionError::ConflictingDerivedValues { end, existing, value } => {
                let mut out: String = "Conflicting derived values on ".to_owned();
                out.append(end.rendered().as_str());
                out.append(": ");
                push_bool(&mut out, *existing);
                out.append(" vs ");
                push_bool(&mut out, *value);
                out
            },
        }
    }
}

} // verus!
