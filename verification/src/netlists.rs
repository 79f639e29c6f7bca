//! The constructions that the compiler makes are sound: every end of a net is a port of an
//! instance or an input, nothing drives two ends, and every port that reads is driven once.

use crate::certificate;
use crate::circuit;
use crate::circuit::{CircuitModel, CnfModel, NodeModel};
use crate::compiler;
use crate::compiler::{EndpointModel, InstanceModel, LayoutModel, MacroModel, NetModel};
use crate::contracts;
use crate::contracts::ContractPortRole;
use crate::lanes;
use crate::strmap;
use vstd::prelude::*;

verus! {

/// The end is an output of one of the splitters from `n0` on, before `n1`.
pub open spec fn splitter_output(end: EndpointModel, n0: nat, n1: nat) -> bool {
    end matches EndpointModel::Port(s, port) && n0 <= s < n1 && (port == "out0"@ || port == "out1"@)
}

/// The end is the input of one of the splitters from `n0` on, before `n1`.
pub open spec fn splitter_input(end: EndpointModel, n0: nat, n1: nat) -> bool {
    end matches EndpointModel::Port(s, port) && n0 <= s < n1 && port == "in"@
}

/// The end is one of the targets.
pub open spec fn among_targets(end: EndpointModel, targets: Seq<(nat, Seq<char>)>) -> bool {
    end matches EndpointModel::Port(g, port) && targets.contains((g, port))
}

/// One of the nets from `m0` on, before `m1`, leads to the end.
pub open spec fn reached(nets: Seq<NetModel>, m0: int, m1: int, end: EndpointModel) -> bool {
    exists|i: int| m0 <= i < m1 && (#[trigger] nets[i]).to == end
}

/// No two of the nets start at the same end, and no two lead to the same end.
pub open spec fn nets_apart(nets: Seq<NetModel>, m0: int, m1: int) -> bool {
    forall|i: int, j: int| #![trigger nets[i], nets[j]]
        m0 <= i < j < m1 ==> nets[i].from != nets[j].from && nets[i].to != nets[j].to
}

/// The nets from `m0` on, before `m1`, spread a source over targets, by means of the
/// splitters from `n0` on, before `n1`.
pub open spec fn spreads(
    nets: Seq<NetModel>,
    m0: int,
    m1: int,
    source: EndpointModel,
    targets: Seq<(nat, Seq<char>)>,
    n0: nat,
    n1: nat,
) -> bool {
    &&& m0 <= m1 <= nets.len()
    &&& n0 <= n1
    &&& forall|i: int|
        m0 <= i < m1 ==> (#[trigger] nets[i]).from == source || splitter_output(nets[i].from, n0, n1)
    &&& forall|i: int|
        m0 <= i < m1 ==> among_targets((#[trigger] nets[i]).to, targets) || splitter_input(nets[i].to, n0, n1)
    &&& nets_apart(nets, m0, m1)
    &&& forall|t: int|
        0 <= t < targets.len() ==> reached(nets, m0, m1, EndpointModel::Port((#[trigger] targets[t]).0, targets[t].1))
    &&& forall|s: nat| n0 <= s < n1 ==> #[trigger] reached(nets, m0, m1, EndpointModel::Port(s, "in"@))
}

/// The targets differ, and belong to the first `n` instances.
pub open spec fn targets_apart(targets: Seq<(nat, Seq<char>)>, n: nat) -> bool {
    &&& forall|t: int| 0 <= t < targets.len() ==> (#[trigger] targets[t]).0 < n
    &&& forall|t: int, u: int| #![trigger targets[t], targets[u]]
        0 <= t < u < targets.len() ==> targets[t] != targets[u]
}

/// The end belongs to none of the instances from `n` on.
pub open spec fn before_instance(end: EndpointModel, n: nat) -> bool {
    end matches EndpointModel::Port(g, _) ==> g < n
}

pub proof fn lemma_splitter_names()
    ensures
        "in"@ != "out0"@,
        "in"@ != "out1"@,
        "out0"@ != "out1"@,
        "out"@ != "out0"@,
        "out"@ != "out1"@,
{
    reveal_strlit("in");
    reveal_strlit("out");
    reveal_strlit("out0");
    reveal_strlit("out1");
    assert("in"@[0] != "out0"@[0]);
    assert("out0"@[3] != "out1"@[3]);
    assert("out"@.len() != "out0"@.len());
    assert("out"@.len() != "out1"@.len());
}

/// What a spread adds to a layout.
proof fn lemma_spread(layout: LayoutModel, source: EndpointModel, targets: Seq<(nat, Seq<char>)>, column: nat)
    requires
        targets.len() > 0,
        before_instance(source, layout.instances.len()),
        targets_apart(targets, layout.instances.len()),
    ensures
        ({
            let after = compiler::spread(layout, source, targets, column);
            spreads(
                after.nets,
                layout.nets.len() as int,
                after.nets.len() as int,
                source,
                targets,
                layout.instances.len(),
                after.instances.len(),
            )
        }),
    decreases targets.len(),
{
    let after = compiler::spread(layout, source, targets, column);
    let m0 = layout.nets.len() as int;
    let n0 = layout.instances.len();
    if targets.len() <= 1 {
        assert(after.nets[m0].to == EndpointModel::Port(targets[0].0, targets[0].1));
        assert(targets.contains((targets[0].0, targets[0].1)));
        assert(reached(after.nets, m0, m0 + 1, EndpointModel::Port(targets[0].0, targets[0].1)));
    } else {
        let mid = (targets.len() / 2) as int;
        let branched = compiler::branch(layout, source, targets, column);
        let low = targets.subrange(0, mid);
        let high = targets.subrange(mid, targets.len() as int);
        let out0 = EndpointModel::Port(n0, "out0"@);
        let out1 = EndpointModel::Port(n0, "out1"@);
        let left = compiler::spread(branched, out0, low, column + 1);
        assert(after == compiler::spread(left, out1, high, column + 1));
        compiler::lemma_spread_shape(branched, out0, low, column + 1);
        compiler::lemma_spread_shape(left, out1, high, column + 1);
        assert forall|t: int, u: int| #![trigger low[t], low[u]] 0 <= t < u < low.len() implies low[t] != low[u] by {
            assert(low[t] == targets[t] && low[u] == targets[u]);
        }
        assert forall|t: int, u: int| #![trigger high[t], high[u]] 0 <= t < u < high.len() implies high[t]
            != high[u] by {
            assert(high[t] == targets[t + mid] && high[u] == targets[u + mid]);
        }
        assert forall|t: int| 0 <= t < low.len() implies (#[trigger] low[t]).0 < branched.instances.len() by {
            assert(low[t] == targets[t]);
        }
        assert forall|t: int| 0 <= t < high.len() implies (#[trigger] high[t]).0 < left.instances.len() by {
            assert(high[t] == targets[t + mid]);
        }
        lemma_spread(branched, out0, low, column + 1);
        lemma_spread(left, out1, high, column + 1);
        lemma_join(
            after.nets,
            left.nets,
            m0,
            source,
            targets,
            mid,
            n0,
            left.instances.len(),
            after.instances.len(),
            branched,
        );
    }
}

/// The nets of two halves, and the net before them, spread the source over all targets.
proof fn lemma_join(
    nets: Seq<NetModel>,
    half: Seq<NetModel>,
    m0: int,
    source: EndpointModel,
    targets: Seq<(nat, Seq<char>)>,
    mid: int,
    n0: nat,
    nl: nat,
    n1: nat,
    branched: LayoutModel,
)
    requires
        0 <= m0,
        0 < mid < targets.len(),
        before_instance(source, n0),
        targets_apart(targets, n0),
        branched.nets.len() == m0 + 1,
        branched.nets[m0] == (NetModel { from: source, to: EndpointModel::Port(n0, "in"@) }),
        compiler::begins(branched.nets, half),
        compiler::begins(half, nets),
        spreads(
            half,
            m0 + 1,
            half.len() as int,
            EndpointModel::Port(n0, "out0"@),
            targets.subrange(0, mid),
            n0 + 1,
            nl,
        ),
        spreads(
            nets,
            half.len() as int,
            nets.len() as int,
            EndpointModel::Port(n0, "out1"@),
            targets.subrange(mid, targets.len() as int),
            nl,
            n1,
        ),
    ensures
        spreads(nets, m0, nets.len() as int, source, targets, n0, n1),
{
    let low = targets.subrange(0, mid);
    let high = targets.subrange(mid, targets.len() as int);
    let ml = half.len() as int;
    let m1 = nets.len() as int;
    lemma_splitter_names();
    assert(half[m0] == branched.nets[m0]);
    assert(nets[m0] == half[m0]);
    assert forall|i: int| m0 < i < ml implies #[trigger] nets[i] == half[i] by {
        assert(nets[i] == half[i]);
    }
    assert forall|i: int| m0 < i < ml implies (#[trigger] nets[i]).from != source && splitter_output(
        nets[i].from,
        n0,
        nl,
    ) && nets[i].from != EndpointModel::Port(n0, "out1"@) by {
        assert(half[i].from == EndpointModel::Port(n0, "out0"@) || splitter_output(half[i].from, n0 + 1, nl));
    }
    assert forall|i: int| ml <= i < m1 implies (#[trigger] nets[i]).from != source && (nets[i].from
        == EndpointModel::Port(n0, "out1"@) || splitter_output(nets[i].from, nl, n1)) by {}
    assert forall|i: int| m0 < i < ml implies (among_targets((#[trigger] nets[i]).to, low) || splitter_input(
        nets[i].to,
        n0 + 1,
        nl,
    )) by {
        assert(among_targets(half[i].to, low) || splitter_input(half[i].to, n0 + 1, nl));
    }
    assert forall|end: EndpointModel| #[trigger] among_targets(end, low) implies among_targets(end, targets)
        && !among_targets(end, high) && before_instance(end, n0) by {
        let (g, port) = (end->Port_0, end->Port_1);
        let t = choose|t: int| 0 <= t < low.len() && low[t] == (g, port);
        assert(targets[t] == (g, port));
        if high.contains((g, port)) {
            let u = choose|u: int| 0 <= u < high.len() && high[u] == (g, port);
            assert(targets[u + mid] == (g, port));
        }
    }
    assert forall|end: EndpointModel| #[trigger] among_targets(end, high) implies among_targets(end, targets)
        && before_instance(end, n0) by {
        let (g, port) = (end->Port_0, end->Port_1);
        let u = choose|u: int| 0 <= u < high.len() && high[u] == (g, port);
        assert(targets[u + mid] == (g, port));
    }
    assert forall|i: int, j: int| #![trigger nets[i], nets[j]] m0 <= i < j < m1 implies nets[i].from != nets[j].from
        && nets[i].to != nets[j].to by {
        if j < ml {
            if i > m0 {
                assert(half[i].from != half[j].from && half[i].to != half[j].to);
            }
        } else {
            assert(among_targets(nets[j].to, high) || splitter_input(nets[j].to, nl, n1));
            if i < ml {
                if i > m0 {
                    assert(among_targets(nets[i].to, low) || splitter_input(nets[i].to, n0 + 1, nl));
                }
            }
        }
    }
    assert forall|t: int| 0 <= t < targets.len() implies reached(
        nets,
        m0,
        m1,
        EndpointModel::Port((#[trigger] targets[t]).0, targets[t].1),
    ) by {
        let end = EndpointModel::Port(targets[t].0, targets[t].1);
        if t < mid {
            assert(low[t] == targets[t]);
            assert(reached(half, m0 + 1, ml, end));
            let i = choose|i: int| m0 + 1 <= i < ml && (#[trigger] half[i]).to == end;
            assert(nets[i].to == end);
        } else {
            assert(high[t - mid] == targets[t]);
            assert(reached(nets, ml, m1, end));
        }
    }
    assert forall|s: nat| n0 <= s < n1 implies #[trigger] reached(nets, m0, m1, EndpointModel::Port(s, "in"@)) by {
        let end = EndpointModel::Port(s, "in"@);
        if s == n0 {
            assert(nets[m0].to == end);
        } else if s < nl {
            assert(reached(half, m0 + 1, ml, end));
            let i = choose|i: int| m0 + 1 <= i < ml && (#[trigger] half[i]).to == end;
            assert(nets[i].to == end);
        } else {
            assert(reached(nets, ml, m1, end));
        }
    }
}
/// The port reads the value of node `i`.
pub open spec fn reads(circuit: CircuitModel, i: nat, port: (nat, Seq<char>)) -> bool {
    ||| port == (compiler::sink_instance(circuit), "in"@) && i == circuit.output
    ||| exists|k: nat| #[trigger] gate_reads(circuit.nodes, k, i, port)
}

/// The port belongs to the instance of node `k`, and reads the value of node `i`.
pub open spec fn gate_reads(nodes: Seq<NodeModel>, k: nat, i: nat, port: (nat, Seq<char>)) -> bool {
    &&& k < nodes.len()
    &&& nodes[k as int].is_gate()
    &&& port.0 == compiler::instance_of(nodes, k)
    &&& match nodes[k as int] {
        NodeModel::Not(input) => port.1 == "in"@ && input == i,
        NodeModel::Or(lhs, rhs) => (port.1 == "lhs"@ && lhs == i) || (port.1 == "rhs"@ && rhs == i),
        _ => false,
    }
}

/// The port belongs to one of the first `k` gates, and reads the value of node `i`.
pub open spec fn early_reads(nodes: Seq<NodeModel>, i: nat, k: nat, port: (nat, Seq<char>)) -> bool {
    exists|g: nat| g < k && #[trigger] gate_reads(nodes, g, i, port)
}

/// The consumers of a node are ports that read it, each once.
proof fn lemma_consumers(nodes: Seq<NodeModel>, i: nat, k: nat)
    requires
        k <= nodes.len(),
    ensures
        forall|t: int|
            0 <= t < compiler::consumers(nodes, i, k).len() ==> early_reads(
                nodes,
                i,
                k,
                #[trigger] compiler::consumers(nodes, i, k)[t],
            ),
        forall|t: int|
            0 <= t < compiler::consumers(nodes, i, k).len() ==> (#[trigger] compiler::consumers(nodes, i, k)[t]).0
                < compiler::instance_of(nodes, k),
        forall|t: int, u: int|
            #![trigger compiler::consumers(nodes, i, k)[t], compiler::consumers(nodes, i, k)[u]]
            0 <= t < u < compiler::consumers(nodes, i, k).len() ==> compiler::consumers(nodes, i, k)[t]
                != compiler::consumers(nodes, i, k)[u],
    decreases k,
{
    compiler::lemma_port_names();
    if k > 0 {
        let prev = (k - 1) as nat;
        lemma_consumers(nodes, i, prev);
        compiler::lemma_instances_increase(nodes, prev, k);
        let earlier = compiler::consumers(nodes, i, prev);
        let list = compiler::consumers(nodes, i, k);
        let gate = compiler::instance_of(nodes, prev);
        assert forall|t: int| 0 <= t < list.len() implies early_reads(nodes, i, k, #[trigger] list[t]) by {
            if t < earlier.len() {
                assert(list[t] == earlier[t]);
                assert(early_reads(nodes, i, prev, earlier[t]));
                let g = choose|g: nat| g < prev && #[trigger] gate_reads(nodes, g, i, earlier[t]);
                assert(gate_reads(nodes, g, i, list[t]));
            } else {
                assert(gate_reads(nodes, prev, i, list[t]));
            }
        }
        assert forall|t: int| 0 <= t < list.len() implies (#[trigger] list[t]).0 < compiler::instance_of(nodes, k) by {
            if t < earlier.len() {
                assert(list[t] == earlier[t]);
            }
        }
        assert forall|t: int, u: int| #![trigger list[t], list[u]] 0 <= t < u < list.len() implies list[t]
            != list[u] by {
            if t < earlier.len() {
                assert(list[t] == earlier[t]);
                if u < earlier.len() {
                    assert(list[u] == earlier[u]);
                }
            }
        }
    }
}

/// The targets of a node are ports that read it, each once, and belong to gates or to the
/// enforcer.
proof fn lemma_targets(circuit: CircuitModel, i: nat)
    ensures
        targets_apart(compiler::targets_of(circuit, i), compiler::sink_instance(circuit) + 1),
        forall|t: int|
            0 <= t < compiler::targets_of(circuit, i).len() ==> reads(
                circuit,
                i,
                #[trigger] compiler::targets_of(circuit, i)[t],
            ),
{
    let n = circuit.nodes.len();
    lemma_consumers(circuit.nodes, i, n);
    let ports = compiler::consumers(circuit.nodes, i, n);
    let targets = compiler::targets_of(circuit, i);
    assert forall|t: int| 0 <= t < targets.len() implies reads(circuit, i, #[trigger] targets[t]) && targets[t].0
        < compiler::sink_instance(circuit) + 1 by {
        if t < ports.len() {
            assert(targets[t] == ports[t]);
            assert(early_reads(circuit.nodes, i, n, ports[t]));
            let g = choose|g: nat| g < n && #[trigger] gate_reads(circuit.nodes, g, i, ports[t]);
            assert(gate_reads(circuit.nodes, g, i, targets[t]));
        }
    }
    assert forall|t: int, u: int| #![trigger targets[t], targets[u]] 0 <= t < u < targets.len() implies targets[t]
        != targets[u] by {
        assert(targets[t] == ports[t]);
        if u < ports.len() {
            assert(targets[u] == ports[u]);
        }
    }
}

/// A port reads one node.
proof fn lemma_reads_one(circuit: CircuitModel, i: nat, j: nat, port: (nat, Seq<char>))
    requires
        reads(circuit, i, port),
        reads(circuit, j, port),
    ensures
        i == j,
{
    compiler::lemma_port_names();
    let nodes = circuit.nodes;
    let n = nodes.len();
    if exists|k: nat| #[trigger] gate_reads(nodes, k, i, port) {
        let k = choose|k: nat| #[trigger] gate_reads(nodes, k, i, port);
        compiler::lemma_instances_increase(nodes, k, n);
        assert(port.0 < compiler::sink_instance(circuit));
        let m = choose|m: nat| #[trigger] gate_reads(nodes, m, j, port);
        assert(gate_reads(nodes, m, j, port));
        if k < m {
            compiler::lemma_instances_increase(nodes, k, m);
        } else if m < k {
            compiler::lemma_instances_increase(nodes, m, k);
        }
    } else {
        if exists|m: nat| #[trigger] gate_reads(nodes, m, j, port) {
            let m = choose|m: nat| #[trigger] gate_reads(nodes, m, j, port);
            compiler::lemma_instances_increase(nodes, m, n);
        }
    }
}

/// No two nodes whose values are used show them at the same end. Two constants of the same
/// value do, and so does a constant and an input that is named like it.
pub open spec fn sources_differ(circuit: CircuitModel) -> bool {
    forall|i: nat, j: nat|
        #![trigger compiler::source_of(circuit.nodes, i), compiler::source_of(circuit.nodes, j)]
        i < j < circuit.nodes.len() && compiler::targets_of(circuit, i).len() > 0 && compiler::targets_of(
            circuit,
            j,
        ).len() > 0 ==> compiler::source_of(circuit.nodes, i) != compiler::source_of(circuit.nodes, j)
}

/// The end is the source of one of the first `k` nodes whose values are used.
pub open spec fn node_source(circuit: CircuitModel, k: nat, end: EndpointModel) -> bool {
    exists|i: nat|
        i < k && compiler::targets_of(circuit, i).len() > 0 && end == #[trigger] compiler::source_of(circuit.nodes, i)
}

/// The end is a port that reads one of the first `k` nodes.
pub open spec fn node_target(circuit: CircuitModel, k: nat, end: EndpointModel) -> bool {
    end matches EndpointModel::Port(g, port) && exists|i: nat| i < k && #[trigger] reads(circuit, i, (g, port))
}

/// The nets once the first `k` nodes are wired: they start at nodes and splitters, lead to
/// ports of gates, of the enforcer and of splitters, and leave none of them out.
pub open spec fn wires_soundly(circuit: CircuitModel, k: nat) -> bool {
    let nets = compiler::wired(circuit, k).nets;
    let m = nets.len() as int;
    let n0 = compiler::sink_instance(circuit) + 1;
    let n1 = compiler::wired(circuit, k).instances.len();
    &&& n0 <= n1
    &&& forall|i: int|
        0 <= i < m ==> node_source(circuit, k, (#[trigger] nets[i]).from) || splitter_output(nets[i].from, n0, n1)
    &&& forall|i: int|
        0 <= i < m ==> node_target(circuit, k, (#[trigger] nets[i]).to) || splitter_input(nets[i].to, n0, n1)
    &&& nets_apart(nets, 0, m)
    &&& forall|i: nat, t: int|
        i < k && 0 <= t < compiler::targets_of(circuit, i).len() ==> reached(
            nets,
            0,
            m,
            EndpointModel::Port(
                (#[trigger] compiler::targets_of(circuit, i)[t]).0,
                compiler::targets_of(circuit, i)[t].1,
            ),
        )
    &&& forall|s: nat| n0 <= s < n1 ==> #[trigger] reached(nets, 0, m, EndpointModel::Port(s, "in"@))
}

/// The sources of nodes are not ports of splitters.
proof fn lemma_node_source(circuit: CircuitModel, i: nat)
    requires
        i < circuit.nodes.len(),
    ensures
        before_instance(compiler::source_of(circuit.nodes, i), compiler::sink_instance(circuit) + 1),
{
    if circuit.nodes[i as int].is_gate() {
        compiler::lemma_instances_increase(circuit.nodes, i, circuit.nodes.len());
    }
}

proof fn lemma_wires_soundly(circuit: CircuitModel, k: nat)
    requires
        circuit.wf(),
        sources_differ(circuit),
        k <= circuit.nodes.len(),
    ensures
        wires_soundly(circuit, k),
    decreases k,
{
    let n0 = compiler::sink_instance(circuit) + 1;
    if k == 0 {
        assert(compiler::wired(circuit, 0) == compiler::placed(circuit));
    } else {
        let prev = (k - 1) as nat;
        lemma_wires_soundly(circuit, prev);
        let before = compiler::wired(circuit, prev);
        let after = compiler::wired(circuit, k);
        let targets = compiler::targets_of(circuit, prev);
        let source = compiler::source_of(circuit.nodes, prev);
        let m0 = before.nets.len() as int;
        let m1 = after.nets.len() as int;
        assert forall|end: EndpointModel| #[trigger] node_source(circuit, prev, end) implies node_source(
            circuit,
            k,
            end,
        ) by {}
        assert forall|end: EndpointModel| #[trigger] node_target(circuit, prev, end) implies node_target(
            circuit,
            k,
            end,
        ) by {
            let (g, port) = (end->Port_0, end->Port_1);
            let i = choose|i: nat| i < prev && #[trigger] reads(circuit, i, (g, port));
            assert(i < k && reads(circuit, i, (g, port)));
        }
        lemma_targets(circuit, prev);
        if targets.len() > 0 {
            lemma_node_source(circuit, prev);
            compiler::lemma_spread_shape(
                before,
                source,
                targets,
                compiler::splitter_column(circuit.nodes, prev),
            );
            lemma_spread(before, source, targets, compiler::splitter_column(circuit.nodes, prev));
            lemma_wires_more(circuit, k);
        }
    }
}

/// One more node.
proof fn lemma_wires_more(circuit: CircuitModel, k: nat)
    requires
        circuit.wf(),
        sources_differ(circuit),
        0 < k <= circuit.nodes.len(),
        wires_soundly(circuit, (k - 1) as nat),
        compiler::targets_of(circuit, (k - 1) as nat).len() > 0,
        compiler::begins(compiler::wired(circuit, (k - 1) as nat).nets, compiler::wired(circuit, k).nets),
        spreads(
            compiler::wired(circuit, k).nets,
            compiler::wired(circuit, (k - 1) as nat).nets.len() as int,
            compiler::wired(circuit, k).nets.len() as int,
            compiler::source_of(circuit.nodes, (k - 1) as nat),
            compiler::targets_of(circuit, (k - 1) as nat),
            compiler::wired(circuit, (k - 1) as nat).instances.len(),
            compiler::wired(circuit, k).instances.len(),
        ),
    ensures
        wires_soundly(circuit, k),
{
    let prev = (k - 1) as nat;
    let n0 = compiler::sink_instance(circuit) + 1;
    let old_nets = compiler::wired(circuit, prev).nets;
    let nets = compiler::wired(circuit, k).nets;
    let nm = compiler::wired(circuit, prev).instances.len();
    let n1 = compiler::wired(circuit, k).instances.len();
    let m0 = old_nets.len() as int;
    let m1 = nets.len() as int;
    let targets = compiler::targets_of(circuit, prev);
    let source = compiler::source_of(circuit.nodes, prev);
    lemma_targets(circuit, prev);
    lemma_node_source(circuit, prev);
    assert forall|i: int| 0 <= i < m0 implies #[trigger] nets[i] == old_nets[i] by {
        assert(nets[i] == old_nets[i]);
    }
    assert forall|i: int| 0 <= i < m1 implies node_source(circuit, k, (#[trigger] nets[i]).from) || splitter_output(
        nets[i].from,
        n0,
        n1,
    ) by {
        if i < m0 {
            if node_source(circuit, prev, old_nets[i].from) {
                let j = choose|j: nat|
                    j < prev && compiler::targets_of(circuit, j).len() > 0 && old_nets[i].from
                        == #[trigger] compiler::source_of(circuit.nodes, j);
                assert(j < k && nets[i].from == compiler::source_of(circuit.nodes, j));
            }
        } else if nets[i].from == source {
            assert(prev < k && nets[i].from == compiler::source_of(circuit.nodes, prev));
        }
    }
    assert forall|end: EndpointModel| #[trigger] among_targets(end, targets) implies end is Port && reads(
        circuit,
        prev,
        (end->Port_0, end->Port_1),
    ) && before_instance(end, n0) by {
        let t = choose|t: int| 0 <= t < targets.len() && targets[t] == (end->Port_0, end->Port_1);
        assert(reads(circuit, prev, targets[t]));
    }
    assert forall|i: int| 0 <= i < m1 implies node_target(circuit, k, (#[trigger] nets[i]).to) || splitter_input(
        nets[i].to,
        n0,
        n1,
    ) by {
        let end = nets[i].to;
        if i < m0 {
            if node_target(circuit, prev, old_nets[i].to) {
                let j = choose|j: nat| j < prev && #[trigger] reads(circuit, j, (end->Port_0, end->Port_1));
                assert(j < k && reads(circuit, j, (end->Port_0, end->Port_1)));
            }
        } else if among_targets(end, targets) {
            assert(prev < k && reads(circuit, prev, (end->Port_0, end->Port_1)));
        }
    }
    assert forall|i: int, j: int| #![trigger nets[i], nets[j]] 0 <= i < j < m1 implies nets[i].from != nets[j].from
        && nets[i].to != nets[j].to by {
        if j < m0 {
            assert(old_nets[i].from != old_nets[j].from && old_nets[i].to != old_nets[j].to);
        } else if i < m0 {
            lemma_old_and_new(circuit, k, i, j);
        }
    }
    assert forall|i: nat, t: int| i < k && 0 <= t < compiler::targets_of(circuit, i).len() implies reached(
        nets,
        0,
        m1,
        EndpointModel::Port((#[trigger] compiler::targets_of(circuit, i)[t]).0, compiler::targets_of(circuit, i)[t].1),
    ) by {
        let port = compiler::targets_of(circuit, i)[t];
        let end = EndpointModel::Port(port.0, port.1);
        if i < prev {
            assert(reached(old_nets, 0, m0, end));
            let a = choose|a: int| 0 <= a < m0 && (#[trigger] old_nets[a]).to == end;
            assert(nets[a].to == end);
        } else {
            assert(reached(nets, m0, m1, EndpointModel::Port(targets[t].0, targets[t].1)));
        }
    }
    assert forall|s: nat| n0 <= s < n1 implies #[trigger] reached(nets, 0, m1, EndpointModel::Port(s, "in"@)) by {
        let end = EndpointModel::Port(s, "in"@);
        if s < nm {
            assert(reached(old_nets, 0, m0, end));
            let a = choose|a: int| 0 <= a < m0 && (#[trigger] old_nets[a]).to == end;
            assert(nets[a].to == end);
        } else {
            assert(reached(nets, m0, m1, end));
        }
    }
}

/// A net of an earlier node and one of a later node have no end in common.
proof fn lemma_old_and_new(circuit: CircuitModel, k: nat, i: int, j: int)
    requires
        circuit.wf(),
        sources_differ(circuit),
        0 < k <= circuit.nodes.len(),
        wires_soundly(circuit, (k - 1) as nat),
        compiler::targets_of(circuit, (k - 1) as nat).len() > 0,
        compiler::begins(compiler::wired(circuit, (k - 1) as nat).nets, compiler::wired(circuit, k).nets),
        spreads(
            compiler::wired(circuit, k).nets,
            compiler::wired(circuit, (k - 1) as nat).nets.len() as int,
            compiler::wired(circuit, k).nets.len() as int,
            compiler::source_of(circuit.nodes, (k - 1) as nat),
            compiler::targets_of(circuit, (k - 1) as nat),
            compiler::wired(circuit, (k - 1) as nat).instances.len(),
            compiler::wired(circuit, k).instances.len(),
        ),
        0 <= i < compiler::wired(circuit, (k - 1) as nat).nets.len() <= j < compiler::wired(circuit, k).nets.len(),
    ensures
        compiler::wired(circuit, k).nets[i].from != compiler::wired(circuit, k).nets[j].from,
        compiler::wired(circuit, k).nets[i].to != compiler::wired(circuit, k).nets[j].to,
{
    let prev = (k - 1) as nat;
    let n0 = compiler::sink_instance(circuit) + 1;
    let old_nets = compiler::wired(circuit, prev).nets;
    let nets = compiler::wired(circuit, k).nets;
    let nm = compiler::wired(circuit, prev).instances.len();
    let n1 = compiler::wired(circuit, k).instances.len();
    let targets = compiler::targets_of(circuit, prev);
    let source = compiler::source_of(circuit.nodes, prev);
    assert(nets[i] == old_nets[i]);
    assert(n0 <= nm);
    lemma_targets(circuit, prev);
    lemma_node_source(circuit, prev);
    let from = nets[i].from;
    assert(node_source(circuit, prev, old_nets[i].from) || splitter_output(old_nets[i].from, n0, nm));
    assert(nets[j].from == source || splitter_output(nets[j].from, nm, n1));
    if node_source(circuit, prev, from) {
        let a = choose|a: nat|
            a < prev && compiler::targets_of(circuit, a).len() > 0 && from == #[trigger] compiler::source_of(
                circuit.nodes,
                a,
            );
        lemma_node_source(circuit, a);
        assert(compiler::source_of(circuit.nodes, a) != compiler::source_of(circuit.nodes, prev));
    }
    let to = nets[i].to;
    let end = nets[j].to;
    assert(node_target(circuit, prev, old_nets[i].to) || splitter_input(old_nets[i].to, n0, nm));
    assert(among_targets(end, targets) || splitter_input(end, nm, n1));
    if to == end {
        if among_targets(end, targets) {
            let t = choose|t: int| 0 <= t < targets.len() && targets[t] == (end->Port_0, end->Port_1);
            assert(reads(circuit, prev, targets[t]));
            assert(targets[t].0 < n0);
            let a = choose|a: nat| a < prev && #[trigger] reads(circuit, a, (to->Port_0, to->Port_1));
            lemma_reads_one(circuit, a, prev, targets[t]);
        } else {
            let a = choose|a: nat| a < prev && #[trigger] reads(circuit, a, (to->Port_0, to->Port_1));
            assert(node_target(circuit, prev, to));
            if exists|g: nat| #[trigger] gate_reads(circuit.nodes, g, a, (to->Port_0, to->Port_1)) {
                let g = choose|g: nat| #[trigger] gate_reads(circuit.nodes, g, a, (to->Port_0, to->Port_1));
                compiler::lemma_instances_increase(circuit.nodes, g, circuit.nodes.len());
            }
        }
    }
}
/// Every instance carries the number of its place in the list.
pub open spec fn numbered_instances(instances: Seq<InstanceModel>) -> bool {
    forall|i: int| 0 <= i < instances.len() ==> (#[trigger] instances[i]).id == i
}

proof fn lemma_gate_numbers(nodes: Seq<NodeModel>, k: nat)
    ensures
        numbered_instances(compiler::gate_instances(nodes, k)),
        forall|i: int|
            0 <= i < compiler::gate_instances(nodes, k).len() ==> (#[trigger] compiler::gate_instances(
                nodes,
                k,
            )[i]).kind is NotGate || compiler::gate_instances(nodes, k)[i].kind is OrGate,
    decreases k,
{
    if k > 0 {
        lemma_gate_numbers(nodes, (k - 1) as nat);
    }
}

/// The instances of a compiled circuit: gates, the enforcer, splitters.
proof fn lemma_instances(circuit: CircuitModel)
    ensures
        ({
            let c = compiler::compiled(circuit);
            let sink = compiler::sink_instance(circuit);
            &&& numbered_instances(c.instances)
            &&& sink < c.instances.len()
            &&& c.instances[sink as int].kind is Enforcer
            &&& forall|i: int| sink < i < c.instances.len() ==> (#[trigger] c.instances[i]).kind is Splitter
            &&& forall|i: int|
                0 <= i < sink ==> (#[trigger] c.instances[i]) == compiler::gate_instances(
                    circuit.nodes,
                    circuit.nodes.len(),
                )[i] && (c.instances[i].kind is NotGate || c.instances[i].kind is OrGate)
        }),
{
    let c = compiler::compiled(circuit);
    let gates = compiler::gate_instances(circuit.nodes, circuit.nodes.len());
    let start = compiler::placed(circuit).instances;
    lemma_gate_numbers(circuit.nodes, circuit.nodes.len());
    compiler::lemma_instance_kinds(circuit);
    assert forall|i: int| 0 <= i < start.len() implies #[trigger] c.instances[i] == start[i] by {
        assert(c.instances[i] == start[i]);
    }
    assert(c.instances[gates.len() as int] == start[gates.len() as int]);
    assert forall|i: int| 0 <= i < gates.len() implies (#[trigger] c.instances[i]) == gates[i] && (
    c.instances[i].kind is NotGate || c.instances[i].kind is OrGate) by {
        assert(start[i] == gates[i]);
    }
    assert forall|i: int| 0 <= i < c.instances.len() implies (#[trigger] c.instances[i]).id == i by {
        if i < gates.len() {
            assert(c.instances[i] == gates[i]);
        }
    }
}

/// The kind of a numbered instance.
proof fn lemma_kind(instances: Seq<InstanceModel>, k: nat, id: nat)
    requires
        numbered_instances(instances),
        k <= instances.len(),
    ensures
        lanes::kind_among(instances, k, id) == (if id < k {
            Some(instances[id as int].kind)
        } else {
            None
        }),
    decreases k,
{
    if k > 0 {
        lemma_kind(instances, (k - 1) as nat, id);
    }
}

/// The port reads, or puts out, in the contract of a kind.
proof fn lemma_has_port(kind: MacroModel, i: int, port: Seq<char>, role: ContractPortRole)
    requires
        0 <= i < contracts::logical_contract(kind)->Some_0.bindings.len(),
        contracts::logical_contract(kind)->Some_0.bindings[i].0 == port,
        contracts::logical_contract(kind)->Some_0.bindings[i].2 == role,
    ensures
        certificate::has_port(contracts::logical_contract(kind)->Some_0, port, role),
{
    let b = contracts::logical_contract(kind)->Some_0.bindings[i];
    assert(b.0 == port && b.2 == role);
}

/// A gate puts out its value at its output.
proof fn lemma_source_sound(circuit: CircuitModel, end: EndpointModel)
    requires
        circuit.wf(),
        node_source(circuit, circuit.nodes.len(), end) || splitter_output(
            end,
            compiler::sink_instance(circuit) + 1,
            compiler::compiled(circuit).instances.len(),
        ),
    ensures
        certificate::source_failure(compiler::compiled(circuit), end) is None,
{
    let c = compiler::compiled(circuit);
    let sink = compiler::sink_instance(circuit);
    lemma_instances(circuit);
    if splitter_output(end, sink + 1, c.instances.len()) {
        let (s, port) = (end->Port_0, end->Port_1);
        lemma_kind(c.instances, c.instances.len(), s);
        assert(c.instances[s as int].kind is Splitter);
        if port == "out0"@ {
            lemma_has_port(MacroModel::Splitter, 1, port, ContractPortRole::Output);
        } else {
            lemma_has_port(MacroModel::Splitter, 2, port, ContractPortRole::Output);
        }
    } else {
        let i = choose|i: nat|
            i < circuit.nodes.len() && compiler::targets_of(circuit, i).len() > 0 && end
                == #[trigger] compiler::source_of(circuit.nodes, i);
        match circuit.nodes[i as int] {
            NodeModel::Input(name) => {
                assert(circuit.variables[i as int] == name);
                assert(c.variables.contains(name));
            },
            NodeModel::Const(value) => {
                reveal_strlit("const_");
                reveal_strlit("const_0");
                reveal_strlit("const_1");
                assert("const_0"@.take(6) =~= "const_"@);
                assert("const_1"@.take(6) =~= "const_"@);
            },
            _ => {
                let g = compiler::instance_of(circuit.nodes, i);
                compiler::lemma_gate_at(circuit.nodes, i, circuit.nodes.len());
                lemma_kind(c.instances, c.instances.len(), g);
                assert(c.instances[g as int] == compiler::gate_instances(circuit.nodes, circuit.nodes.len())[g as int]);
                let kind = c.instances[g as int].kind;
                if kind is NotGate {
                    lemma_has_port(kind, 1, "out"@, ContractPortRole::Output);
                } else {
                    lemma_has_port(kind, 2, "out"@, ContractPortRole::Output);
                }
            },
        }
    }
}

/// A port that reads a node is an input of its instance.
proof fn lemma_target_sound(circuit: CircuitModel, net: NetModel)
    requires
        circuit.wf(),
        node_target(circuit, circuit.nodes.len(), net.to) || splitter_input(
            net.to,
            compiler::sink_instance(circuit) + 1,
            compiler::compiled(circuit).instances.len(),
        ),
    ensures
        certificate::target_failure(compiler::compiled(circuit), net) is None,
{
    let c = compiler::compiled(circuit);
    let sink = compiler::sink_instance(circuit);
    lemma_instances(circuit);
    let (g, port) = (net.to->Port_0, net.to->Port_1);
    lemma_kind(c.instances, c.instances.len(), g);
    if splitter_input(net.to, sink + 1, c.instances.len()) {
        assert(c.instances[g as int].kind is Splitter);
        lemma_has_port(MacroModel::Splitter, 0, port, ContractPortRole::Input);
    } else {
        let i = choose|i: nat| i < circuit.nodes.len() && #[trigger] reads(circuit, i, (g, port));
        if exists|k: nat| #[trigger] gate_reads(circuit.nodes, k, i, (g, port)) {
            let k = choose|k: nat| #[trigger] gate_reads(circuit.nodes, k, i, (g, port));
            compiler::lemma_gate_at(circuit.nodes, k, circuit.nodes.len());
            assert(c.instances[g as int] == compiler::gate_instances(circuit.nodes, circuit.nodes.len())[g as int]);
            let kind = c.instances[g as int].kind;
            if port == "rhs"@ && kind is OrGate {
                lemma_has_port(kind, 1, port, ContractPortRole::Input);
            } else {
                lemma_has_port(kind, 0, port, ContractPortRole::Input);
            }
        } else {
            lemma_has_port(MacroModel::Enforcer, 0, port, ContractPortRole::Input);
        }
    }
}

/// Where no net leads to the end, it has no driver, and where one does, it has one.
proof fn lemma_driver(nets: Seq<NetModel>, end: EndpointModel, k: nat)
    requires
        k <= nets.len(),
    ensures
        certificate::driver_among(nets, end, k) is Some <==> reached(nets, 0, k as int, end),
    decreases k,
{
    if k > 0 {
        let prev = (k - 1) as nat;
        lemma_driver(nets, end, prev);
        if reached(nets, 0, prev as int, end) {
            let i = choose|i: int| 0 <= i < prev && (#[trigger] nets[i]).to == end;
            assert(nets[i].to == end);
        }
        if nets[prev as int].to == end {
            assert(reached(nets, 0, k as int, end));
        }
    }
}

/// Where the nets have no end in common, no end drives two.
proof fn lemma_fanout(nets: Seq<NetModel>, end: EndpointModel, k: nat)
    requires
        k <= nets.len(),
        nets_apart(nets, 0, nets.len() as int),
    ensures
        certificate::fanout(nets, end, k) <= 1,
        certificate::fanout(nets, end, k) > 0 ==> exists|i: int| 0 <= i < k && (#[trigger] nets[i]).from == end,
    decreases k,
{
    if k > 0 {
        let prev = (k - 1) as nat;
        lemma_fanout(nets, end, prev);
        if nets[prev as int].from == end && certificate::fanout(nets, end, prev) > 0 {
            let i = choose|i: int| 0 <= i < prev && (#[trigger] nets[i]).from == end;
            assert(nets[i].from != nets[prev as int].from);
        }
        if certificate::fanout(nets, end, prev) > 0 {
            let i = choose|i: int| 0 <= i < prev && (#[trigger] nets[i]).from == end;
            assert(0 <= i < k && nets[i].from == end);
        }
    }
}

proof fn lemma_no_fanout_failure(nets: Seq<NetModel>, k: nat)
    requires
        k <= nets.len(),
        nets_apart(nets, 0, nets.len() as int),
    ensures
        certificate::fanout_failure(nets, k) is None,
    decreases k,
{
    if k > 0 {
        lemma_no_fanout_failure(nets, (k - 1) as nat);
        lemma_fanout(nets, nets[k - 1].from, nets.len());
    }
}

proof fn lemma_no_net_failure(circuit: CircuitModel, k: nat)
    requires
        circuit.wf(),
        wires_soundly(circuit, circuit.nodes.len()),
        k <= compiler::compiled(circuit).nets.len(),
    ensures
        certificate::net_failure(compiler::compiled(circuit), k) is None,
    decreases k,
{
    let c = compiler::compiled(circuit);
    if k > 0 {
        let prev = (k - 1) as nat;
        lemma_no_net_failure(circuit, prev);
        let net = c.nets[prev as int];
        lemma_source_sound(circuit, net.from);
        lemma_target_sound(circuit, net);
        lemma_driver(c.nets, net.to, prev);
        if reached(c.nets, 0, prev as int, net.to) {
            let i = choose|i: int| 0 <= i < prev && (#[trigger] c.nets[i]).to == net.to;
            assert(c.nets[i].to != c.nets[prev as int].to);
        }
    }
}

/// Every port that reads is driven.
proof fn lemma_driven(circuit: CircuitModel, i: int, b: int)
    requires
        circuit.wf(),
        wires_soundly(circuit, circuit.nodes.len()),
        0 <= i < compiler::compiled(circuit).instances.len(),
        0 <= b < contracts::logical_contract(compiler::compiled(circuit).instances[i].kind)->Some_0.bindings.len(),
        contracts::logical_contract(compiler::compiled(circuit).instances[i].kind)->Some_0.bindings[b].2
            == ContractPortRole::Input,
    ensures
        reached(
            compiler::compiled(circuit).nets,
            0,
            compiler::compiled(circuit).nets.len() as int,
            EndpointModel::Port(
                i as nat,
                contracts::logical_contract(compiler::compiled(circuit).instances[i].kind)->Some_0.bindings[b].0,
            ),
        ),
{
    let c = compiler::compiled(circuit);
    let n = circuit.nodes.len();
    let sink = compiler::sink_instance(circuit);
    let port = contracts::logical_contract(c.instances[i].kind)->Some_0.bindings[b].0;
    lemma_instances(circuit);
    if i > sink {
        assert(port == "in"@);
        assert(reached(c.nets, 0, c.nets.len() as int, EndpointModel::Port(i as nat, "in"@)));
    } else if i == sink {
        let targets = compiler::targets_of(circuit, circuit.output);
        assert(targets.last() == (sink, "in"@));
        assert(reached(
            c.nets,
            0,
            c.nets.len() as int,
            EndpointModel::Port(targets[targets.len() - 1].0, targets[targets.len() - 1].1),
        ));
    } else {
        let g = compiler::lemma_gate_of_instance(circuit.nodes, n, i as nat);
        compiler::lemma_gate_at(circuit.nodes, g, n);
        compiler::lemma_consumer_listed(circuit.nodes, g, n);
        assert(c.instances[i] == compiler::gate_instances(circuit.nodes, n)[i]);
        let node = match circuit.nodes[g as int] {
            NodeModel::Not(input) => input,
            NodeModel::Or(lhs, rhs) => if b == 0 {
                lhs
            } else {
                rhs
            },
            _ => 0,
        };
        let ports = compiler::consumers(circuit.nodes, node, n);
        assert(ports.contains((i as nat, port)));
        let t = choose|t: int| 0 <= t < ports.len() && ports[t] == (i as nat, port);
        let targets = compiler::targets_of(circuit, node);
        assert(targets[t] == (i as nat, port));
        assert(node < n);
        assert(reached(c.nets, 0, c.nets.len() as int, EndpointModel::Port(targets[t].0, targets[t].1)));
    }
}

proof fn lemma_no_undriven_port(circuit: CircuitModel, i: int, k: nat)
    requires
        circuit.wf(),
        wires_soundly(circuit, circuit.nodes.len()),
        0 <= i < compiler::compiled(circuit).instances.len(),
        k <= contracts::logical_contract(compiler::compiled(circuit).instances[i].kind)->Some_0.bindings.len(),
    ensures
        certificate::undriven_port(compiler::compiled(circuit), compiler::compiled(circuit).instances[i], k) is None,
    decreases k,
{
    let c = compiler::compiled(circuit);
    if k > 0 {
        lemma_no_undriven_port(circuit, i, (k - 1) as nat);
        lemma_instances(circuit);
        let binding = contracts::logical_contract(c.instances[i].kind)->Some_0.bindings[k - 1];
        if binding.2 == ContractPortRole::Input {
            lemma_driven(circuit, i, k - 1);
            lemma_driver(c.nets, EndpointModel::Port(i as nat, binding.0), c.nets.len());
        }
    }
}

proof fn lemma_no_undriven(circuit: CircuitModel, k: nat)
    requires
        circuit.wf(),
        wires_soundly(circuit, circuit.nodes.len()),
        k <= compiler::compiled(circuit).instances.len(),
    ensures
        certificate::undriven(compiler::compiled(circuit), k) is None,
    decreases k,
{
    let c = compiler::compiled(circuit);
    if k > 0 {
        lemma_no_undriven(circuit, (k - 1) as nat);
        lemma_no_undriven_port(
            circuit,
            k - 1,
            contracts::logical_contract(c.instances[k - 1].kind)->Some_0.bindings.len(),
        );
    }
}

/// The construction of a circuit passes all checks of its instances and nets: every net
/// leads from an output or an input to a port that reads, every port that reads is driven by
/// one net, and no end drives two.
pub proof fn law_compiled_structure(circuit: CircuitModel)
    requires
        circuit.wf(),
        sources_differ(circuit),
    ensures
        certificate::structure_failure(compiler::compiled(circuit)) is None,
        nets_apart(compiler::compiled(circuit).nets, 0, compiler::compiled(circuit).nets.len() as int),
{
    let c = compiler::compiled(circuit);
    lemma_wires_soundly(circuit, circuit.nodes.len());
    lemma_instances(circuit);
    lemma_kind(c.instances, c.instances.len(), c.output_sink);
    lemma_no_net_failure(circuit, c.nets.len());
    lemma_no_fanout_failure(c.nets, c.nets.len());
    lemma_no_undriven(circuit, c.instances.len());
    assert(certificate::distinct_ids(c));
    assert forall|i: int| 0 <= i < c.instances.len() implies (#[trigger] c.instances[i]).kind !is InputPort by {}
}

/// At most one clause is empty, and if one is, no input is named `const_0`, as the value that
/// stands for it.
pub open spec fn blanks_apart(formula: CnfModel) -> bool {
    &&& forall|i: int, j: int|
        #![trigger formula[i], formula[j]]
        0 <= i < j < formula.len() ==> formula[i].len() > 0 || formula[j].len() > 0
    &&& forall|i: int|
        0 <= i < formula.len() && (#[trigger] formula[i]).len() == 0 ==> !circuit::cnf_mentions(formula, "const_0"@)
}

/// The sources of the nodes of a formula's circuit differ.
proof fn lemma_formula_sources(formula: CnfModel)
    requires
        blanks_apart(formula),
    ensures
        sources_differ(circuit::circuit_of(formula)),
{
    let circuit = circuit::circuit_of(formula);
    let names = circuit::sorted_variables(formula);
    circuit::lemma_variables_exist(formula);
    circuit::lemma_circuit_of_wf(formula);
    strmap::lemma_sorted_texts_distinct(names);
    if formula.len() == 0 {
        if names.len() > 0 {
            assert(names.contains(names[0]));
        }
        assert(circuit.nodes.len() == 1);
    } else {
        let blank: int = if exists|e: int| 0 <= e < formula.len() && (#[trigger] formula[e]).len() == 0 {
            let e = choose|e: int| 0 <= e < formula.len() && (#[trigger] formula[e]).len() == 0;
            circuit::lemma_one_blank(formula, e) as int
        } else {
            circuit::lemma_circuit_of_tail(formula, false);
            -1
        };
        assert forall|i: nat, j: nat|
            #![trigger compiler::source_of(circuit.nodes, i), compiler::source_of(circuit.nodes, j)]
            i < j < circuit.nodes.len() && compiler::targets_of(circuit, i).len() > 0 && compiler::targets_of(
                circuit,
                j,
            ).len() > 0 implies compiler::source_of(circuit.nodes, i) != compiler::source_of(circuit.nodes, j) by {
            if i < names.len() {
                assert(circuit.nodes[i as int] == NodeModel::Input(names[i as int]));
                assert(names.contains(names[i as int]));
            }
            if j < names.len() {
                assert(circuit.nodes[j as int] == NodeModel::Input(names[j as int]));
            } else if i >= names.len() && i != blank && j != blank {
                assert(circuit.nodes[i as int].is_gate() && circuit.nodes[j as int].is_gate());
                compiler::lemma_instances_increase(circuit.nodes, i, j);
            } else if i >= names.len() {
                assert(i != blank ==> circuit.nodes[i as int].is_gate());
                assert(j != blank ==> circuit.nodes[j as int].is_gate());
            }
        }
    }
}

/// The construction of a formula passes all checks of its instances and nets. Left out are
/// formulas with several empty clauses, or with one beside an input named `const_0`: there one
/// end drives several nets.
pub proof fn law_formula_structure(formula: CnfModel)
    requires
        blanks_apart(formula),
    ensures
        certificate::structure_failure(compiler::compiled(circuit::circuit_of(formula))) is None,
{
    circuit::lemma_circuit_of_wf(formula);
    lemma_formula_sources(formula);
    law_compiled_structure(circuit::circuit_of(formula));
}

} // verus!
