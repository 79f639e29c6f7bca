//! Where the instances of a construction stand.

use crate::circuit;
use crate::circuit::{CircuitModel, NodeModel};
use crate::compiler;
use crate::compiler::{EndpointModel, InstanceModel, LayoutModel};
use vstd::prelude::*;

verus! {

/// A gate is as deep as its deepest operand, and one more.
pub proof fn law_depth_is_longest_chain(nodes: Seq<NodeModel>, i: nat)
    requires
        circuit::well_founded(nodes),
        i < nodes.len(),
    ensures
        match nodes[i as int] {
            NodeModel::Not(input) => circuit::node_depth(nodes, i) == circuit::node_depth(nodes, input) + 1,
            NodeModel::Or(lhs, rhs) => {
                let (d, l, r) = (
                    circuit::node_depth(nodes, i),
                    circuit::node_depth(nodes, lhs),
                    circuit::node_depth(nodes, rhs),
                );
                &&& d > l && d > r
                &&& d == l + 1 || d == r + 1
            },
            _ => circuit::node_depth(nodes, i) == 0,
        },
{
}

/// A node is an operand as often as there are ports that its value is led to.
pub proof fn law_fanout_counts_ports(nodes: Seq<NodeModel>, i: nat)
    ensures
        circuit::fanout_of(nodes, i) == compiler::consumers(nodes, i, nodes.len()).len(),
{
    lemma_fanout(nodes, i, nodes.len());
    assert(nodes.take(nodes.len() as int) =~= nodes);
}

proof fn lemma_fanout(nodes: Seq<NodeModel>, i: nat, k: nat)
    requires
        k <= nodes.len(),
    ensures
        circuit::fanout_of(nodes.take(k as int), i) == compiler::consumers(nodes, i, k).len(),
    decreases k,
{
    if k > 0 {
        lemma_fanout(nodes, i, (k - 1) as nat);
        assert(nodes.take(k as int).drop_last() =~= nodes.take(k - 1));
        assert(nodes.take(k as int).last() == nodes[k - 1]);
    }
}

proof fn lemma_rows_grow(nodes: Seq<NodeModel>, i: nat, j: nat, depth: nat)
    requires
        i < j,
        nodes[i as int].is_gate(),
        circuit::node_depth(nodes, i) == depth,
    ensures
        compiler::gates_at_depth(nodes, i, depth) < compiler::gates_at_depth(nodes, j, depth),
    decreases j,
{
    if i < j - 1 {
        lemma_rows_grow(nodes, i, (j - 1) as nat, depth);
    }
}

/// The instance that stands for a gate.
pub open spec fn instance_for(circuit: CircuitModel, i: nat) -> InstanceModel {
    compiler::compiled(circuit).instances[compiler::instance_of(circuit.nodes, i) as int]
}

proof fn lemma_instance_for(circuit: CircuitModel, i: nat)
    requires
        i < circuit.nodes.len(),
        circuit.nodes[i as int].is_gate(),
    ensures
        instance_for(circuit, i) == (InstanceModel {
            id: compiler::instance_of(circuit.nodes, i),
            kind: compiler::gate_kind(circuit.nodes[i as int]),
            column: circuit::node_depth(circuit.nodes, i) + 1,
            row: compiler::gate_row(circuit.nodes, i),
        }),
{
    let n = circuit.nodes.len();
    compiler::lemma_gate_at(circuit.nodes, i, n);
    compiler::lemma_instance_kinds(circuit);
    let g = compiler::instance_of(circuit.nodes, i) as int;
    let start = compiler::placed(circuit).instances;
    assert(start[g] == compiler::gate_instances(circuit.nodes, n)[g]);
    assert(compiler::compiled(circuit).instances[g] == start[g]);
}

/// Every gate has a place of its own, a gate stands in a column right of those whose values it uses,
/// and the kind of its instance is its own.
pub proof fn law_gates_have_places(circuit: CircuitModel, i: nat, j: nat)
    requires
        circuit::well_founded(circuit.nodes),
        i < circuit.nodes.len(),
        j < circuit.nodes.len(),
        circuit.nodes[i as int].is_gate(),
        circuit.nodes[j as int].is_gate(),
    ensures
        i != j ==> instance_for(circuit, i).column != instance_for(circuit, j).column || instance_for(circuit, i).row
            != instance_for(circuit, j).row,
        circuit.nodes[j as int] == NodeModel::Not(i) ==> instance_for(circuit, i).column < instance_for(
            circuit,
            j,
        ).column,
        circuit.nodes[j as int] matches NodeModel::Or(lhs, rhs) ==> (lhs == i || rhs == i ==> instance_for(
            circuit,
            i,
        ).column < instance_for(circuit, j).column),
        instance_for(circuit, i).column >= 2,
        instance_for(circuit, i).kind is NotGate <==> circuit.nodes[i as int] is Not,
        instance_for(circuit, i).kind is OrGate <==> circuit.nodes[i as int] is Or,
{
    lemma_instance_for(circuit, i);
    lemma_instance_for(circuit, j);
    let (a, b) = (circuit::node_depth(circuit.nodes, i), circuit::node_depth(circuit.nodes, j));
    if a == b && i < j {
        lemma_rows_grow(circuit.nodes, i, j, a);
    }
    if a == b && j < i {
        lemma_rows_grow(circuit.nodes, j, i, a);
    }
    law_depth_is_longest_chain(circuit.nodes, i);
    law_depth_is_longest_chain(circuit.nodes, j);
}

/// The enforcer stands beside the instance whose value it takes: in the next column, and in its row.
pub proof fn law_enforcer_stands_beyond(circuit: CircuitModel)
    requires
        circuit.output < circuit.nodes.len(),
        circuit.nodes[circuit.output as int].is_gate(),
    ensures
        ({
            let c = compiler::compiled(circuit);
            let sink = c.instances[c.output_sink as int];
            &&& c.output_sink < c.instances.len()
            &&& sink.kind is Enforcer
            &&& sink.id == c.output_sink
            &&& sink.column == instance_for(circuit, circuit.output).column + 1
            &&& sink.row == instance_for(circuit, circuit.output).row
        }),
{
    lemma_instance_for(circuit, circuit.output);
    compiler::lemma_instance_kinds(circuit);
    let start = compiler::placed(circuit).instances;
    let sink = compiler::sink_instance(circuit) as int;
    assert(compiler::compiled(circuit).instances[sink] == start[sink]);
}

/// A splitter stands in the column after that of the instance that drives it; one that an input
/// drives stands in the first column of instances.
pub open spec fn follows(instances: Seq<InstanceModel>, net: compiler::NetModel) -> bool {
    net.to matches EndpointModel::Port(t, port) && t < instances.len() && instances[t as int].kind is Splitter
        ==> match net.from {
        EndpointModel::Port(s, _) => s < instances.len() && instances[net.to->Port_0 as int].column
            == instances[s as int].column + 1,
        EndpointModel::External(_) => instances[net.to->Port_0 as int].column == 1,
    }
}

/// A net that a tree of splitters adds leads to no new splitter, or it comes from the source to the
/// first one, or from one splitter to one in the next column.
spec fn is_branch(
    instances: Seq<InstanceModel>,
    start: nat,
    source: EndpointModel,
    column: nat,
    net: compiler::NetModel,
) -> bool {
    net.to matches EndpointModel::Port(t, port) && {
        ||| t < start
        ||| t < instances.len() && net.from == source && instances[t as int].column == column
        ||| t < instances.len() && (net.from matches EndpointModel::Port(s, _) && start <= s < instances.len()
            && instances[t as int].column == instances[s as int].column + 1)
    }
}

proof fn lemma_branches(
    layout: LayoutModel,
    source: EndpointModel,
    targets: Seq<(nat, Seq<char>)>,
    column: nat,
    start: nat,
)
    requires
        targets.len() > 0,
        start <= layout.instances.len(),
        forall|i: int| 0 <= i < targets.len() ==> (#[trigger] targets[i]).0 < start,
    ensures
        ({
            let after = compiler::spread(layout, source, targets, column);
            forall|k: int|
                layout.nets.len() <= k < after.nets.len() ==> is_branch(
                    after.instances,
                    start,
                    source,
                    column,
                    #[trigger] after.nets[k],
                )
        }),
    decreases targets.len(),
{
    let after = compiler::spread(layout, source, targets, column);
    if targets.len() > 1 {
        let mid = (targets.len() / 2) as int;
        let splitter = layout.instances.len();
        let branched = compiler::branch(layout, source, targets, column);
        let low = targets.subrange(0, mid);
        let high = targets.subrange(mid, targets.len() as int);
        let (one, two) = (EndpointModel::Port(splitter, "out0"@), EndpointModel::Port(splitter, "out1"@));
        assert forall|i: int| 0 <= i < low.len() implies (#[trigger] low[i]).0 < start by {
            assert(low[i] == targets[i]);
        }
        assert forall|i: int| 0 <= i < high.len() implies (#[trigger] high[i]).0 < start by {
            assert(high[i] == targets[mid + i]);
        }
        let left = compiler::spread(branched, one, low, column + 1);
        compiler::lemma_spread_shape(branched, one, low, column + 1);
        compiler::lemma_spread_shape(left, two, high, column + 1);
        lemma_branches(branched, one, low, column + 1, start);
        lemma_branches(left, two, high, column + 1, start);
        assert(after == compiler::spread(left, two, high, column + 1));
        assert(left.instances[splitter as int] == branched.instances[splitter as int]);
        assert(after.instances[splitter as int] == left.instances[splitter as int]);
        assert(after.instances[splitter as int].column == column);
        assert forall|k: int| layout.nets.len() <= k < after.nets.len() implies is_branch(
            after.instances,
            start,
            source,
            column,
            #[trigger] after.nets[k],
        ) by {
            if k == layout.nets.len() {
                assert(left.nets[k] == branched.nets[k]);
                assert(after.nets[k] == left.nets[k]);
            } else if k < left.nets.len() {
                assert(after.nets[k] == left.nets[k]);
                let net = left.nets[k];
                assert(is_branch(left.instances, start, one, column + 1, net));
                let t = net.to->Port_0;
                if t >= start {
                    assert(after.instances[t as int] == left.instances[t as int]);
                    if net.from != one {
                        let s = net.from->Port_0;
                        assert(after.instances[s as int] == left.instances[s as int]);
                    }
                }
            } else {
                assert(is_branch(after.instances, start, two, column + 1, after.nets[k]));
            }
        }
    }
}

proof fn lemma_targets_early(nodes: Seq<NodeModel>, i: nat, k: nat, n: nat)
    requires
        k <= n <= nodes.len(),
    ensures
        forall|t: int|
            0 <= t < compiler::consumers(nodes, i, k).len() ==> (#[trigger] compiler::consumers(nodes, i, k)[t]).0
                < compiler::gate_instances(nodes, n).len(),
    decreases k,
{
    if k > 0 {
        lemma_targets_early(nodes, i, (k - 1) as nat, n);
        let earlier = compiler::consumers(nodes, i, (k - 1) as nat);
        let list = compiler::consumers(nodes, i, k);
        let gate = compiler::instance_of(nodes, (k - 1) as nat);
        if nodes[k - 1].is_gate() {
            compiler::lemma_gate_at(nodes, (k - 1) as nat, n);
        }
        assert forall|t: int| 0 <= t < list.len() implies (#[trigger] list[t]).0 < compiler::gate_instances(
            nodes,
            n,
        ).len() by {
            if t < earlier.len() {
                assert(list[t] == earlier[t]);
            } else {
                assert(nodes[k - 1].is_gate());
                assert(list[t].0 == gate);
            }
        }
    }
}

proof fn lemma_gate_kinds(nodes: Seq<NodeModel>, k: nat)
    ensures
        forall|g: int|
            0 <= g < compiler::gate_instances(nodes, k).len() ==> (#[trigger] compiler::gate_instances(nodes, k)[g]).kind
                !is Splitter,
    decreases k,
{
    if k > 0 {
        lemma_gate_kinds(nodes, (k - 1) as nat);
    }
}

/// The ends of a net are instances, or its beginning is an input; and a splitter at its end follows
/// its beginning.
spec fn is_led(instances: Seq<InstanceModel>, net: compiler::NetModel) -> bool {
    &&& net.to matches EndpointModel::Port(t, _) && t < instances.len()
    &&& net.from matches EndpointModel::Port(s, _) ==> s < instances.len()
    &&& follows(instances, net)
}

proof fn lemma_added(circuit: CircuitModel, k: nat, n: int)
    requires
        0 < k <= circuit.nodes.len(),
        compiler::targets_of(circuit, (k - 1) as nat).len() > 0,
        compiler::wired(circuit, (k - 1) as nat).nets.len() <= n < compiler::wired(circuit, k).nets.len(),
    ensures
        is_led(compiler::wired(circuit, k).instances, compiler::wired(circuit, k).nets[n]),
{
    let node = (k - 1) as nat;
    let nodes = circuit.nodes;
    let earlier = compiler::wired(circuit, node);
    let layout = compiler::wired(circuit, k);
    let targets = compiler::targets_of(circuit, node);
    let source = compiler::source_of(nodes, node);
    let column = compiler::splitter_column(nodes, node);
    let gates = compiler::placed(circuit).instances;
    let net = layout.nets[n];
    compiler::lemma_wired_grows(circuit, 0, node);
    compiler::lemma_wired_grows(circuit, 0, k);
    lemma_targets_early(nodes, node, nodes.len(), nodes.len());
    assert forall|i: int| 0 <= i < targets.len() implies (#[trigger] targets[i]).0 < gates.len() by {
        let ports = compiler::consumers(nodes, node, nodes.len());
        if i < ports.len() {
            assert(targets[i] == ports[i]);
        }
    }
    lemma_branches(earlier, source, targets, column, gates.len());
    assert(is_branch(layout.instances, gates.len(), source, column, net));
    lemma_gate_kinds(nodes, nodes.len());
    let t = net.to->Port_0 as int;
    if t < gates.len() {
        assert(layout.instances[t] == gates[t]);
        if t < gates.len() - 1 {
            assert(gates[t] == compiler::gate_instances(nodes, nodes.len())[t]);
        }
    }
    if nodes[node as int].is_gate() {
        compiler::lemma_gate_at(nodes, node, nodes.len());
        let g = compiler::instance_of(nodes, node) as int;
        assert(gates[g] == compiler::gate_instances(nodes, nodes.len())[g]);
        assert(layout.instances[g] == gates[g]);
    }
    lemma_sources(earlier, source, targets, column, n);
}

proof fn lemma_sources(
    layout: LayoutModel,
    source: EndpointModel,
    targets: Seq<(nat, Seq<char>)>,
    column: nat,
    n: int,
)
    requires
        targets.len() > 0,
        layout.nets.len() <= n < compiler::spread(layout, source, targets, column).nets.len(),
    ensures
        ({
            let after = compiler::spread(layout, source, targets, column);
            after.nets[n].from == source || (after.nets[n].from matches EndpointModel::Port(s, _) && s
                < after.instances.len())
        }),
    decreases targets.len(),
{
    if targets.len() > 1 {
        let mid = (targets.len() / 2) as int;
        let splitter = layout.instances.len();
        let branched = compiler::branch(layout, source, targets, column);
        let low = targets.subrange(0, mid);
        let high = targets.subrange(mid, targets.len() as int);
        let (one, two) = (EndpointModel::Port(splitter, "out0"@), EndpointModel::Port(splitter, "out1"@));
        let left = compiler::spread(branched, one, low, column + 1);
        compiler::lemma_spread_shape(branched, one, low, column + 1);
        compiler::lemma_spread_shape(left, two, high, column + 1);
        let after = compiler::spread(left, two, high, column + 1);
        assert(after == compiler::spread(layout, source, targets, column));
        if n == layout.nets.len() {
            assert(left.nets[n] == branched.nets[n]);
            assert(after.nets[n] == left.nets[n]);
        } else if n < left.nets.len() {
            lemma_sources(branched, one, low, column + 1, n);
            assert(after.nets[n] == left.nets[n]);
        } else {
            lemma_sources(left, two, high, column + 1, n);
        }
    }
}

proof fn lemma_follow(circuit: CircuitModel, k: nat)
    requires
        k <= circuit.nodes.len(),
    ensures
        ({
            let layout = compiler::wired(circuit, k);
            forall|n: int| 0 <= n < layout.nets.len() ==> is_led(layout.instances, #[trigger] layout.nets[n])
        }),
    decreases k,
{
    if k > 0 {
        let node = (k - 1) as nat;
        lemma_follow(circuit, node);
        let earlier = compiler::wired(circuit, node);
        let layout = compiler::wired(circuit, k);
        let targets = compiler::targets_of(circuit, node);
        compiler::lemma_wired_grows(circuit, node, k);
        if targets.len() > 0 {
            assert forall|n: int| 0 <= n < layout.nets.len() implies is_led(layout.instances, #[trigger] layout.nets[n]) by {
                let net = layout.nets[n];
                if n < earlier.nets.len() {
                    assert(net == earlier.nets[n]);
                    assert(is_led(earlier.instances, earlier.nets[n]));
                    let t = net.to->Port_0 as int;
                    assert(layout.instances[t] == earlier.instances[t]);
                    if net.from is Port {
                        let s = net.from->Port_0 as int;
                        assert(layout.instances[s] == earlier.instances[s]);
                    }
                } else {
                    lemma_added(circuit, k, n);
                }
            }
        } else {
            assert(layout == earlier);
        }
    }
}

/// The splitters of a construction stand in the columns after those of their drivers.
pub proof fn law_splitters_follow(circuit: CircuitModel, n: int)
    requires
        0 <= n < compiler::compiled(circuit).nets.len(),
    ensures
        follows(compiler::compiled(circuit).instances, compiler::compiled(circuit).nets[n]),
{
    lemma_follow(circuit, circuit.nodes.len());
    assert(is_led(compiler::compiled(circuit).instances, compiler::wired(circuit, circuit.nodes.len()).nets[n]));
}

} // verus!
