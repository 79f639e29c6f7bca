//! Which constructions pass the checks of their structure.

use crate::certificate;
use crate::compiler::{ConstructionModel, EndpointModel, InstanceModel, MacroModel, NetModel};
use crate::contracts;
use crate::contracts::ContractPortRole;
use crate::lanes;
use vstd::prelude::*;

verus! {

/// The ports at which an instance takes values.
pub open spec fn reads(kind: MacroModel, port: Seq<char>) -> bool {
    match kind {
        MacroModel::NotGate | MacroModel::Splitter | MacroModel::Enforcer => port == "in"@,
        MacroModel::OrGate => port == "lhs"@ || port == "rhs"@,
        MacroModel::InputPort(_) => false,
    }
}

/// The ports at which an instance gives values.
pub open spec fn gives(kind: MacroModel, port: Seq<char>) -> bool {
    match kind {
        MacroModel::NotGate | MacroModel::OrGate => port == "out"@,
        MacroModel::Splitter => port == "out0"@ || port == "out1"@,
        _ => false,
    }
}

proof fn lemma_roles(kind: MacroModel, port: Seq<char>)
    requires
        kind !is InputPort,
    ensures
        contracts::logical_contract(kind) is Some,
        certificate::has_port(contracts::logical_contract(kind)->Some_0, port, ContractPortRole::Input) == reads(kind, port),
        certificate::has_port(contracts::logical_contract(kind)->Some_0, port, ContractPortRole::Output) == gives(kind, port),
{
    let bindings = contracts::logical_contract(kind)->Some_0.bindings;
    match kind {
        MacroModel::NotGate => {
            assert(bindings.len() == 2);
            assert(bindings[0].2 != bindings[1].2);
        },
        MacroModel::OrGate => {
            assert(bindings.len() == 3);
            assert(bindings[0].0 == bindings[0].0 && bindings[1].0 == bindings[1].0 && bindings[2].0 == bindings[2].0);
        },
        MacroModel::Splitter => {
            assert(bindings.len() == 3);
            assert(bindings[0].0 == bindings[0].0 && bindings[1].0 == bindings[1].0 && bindings[2].0 == bindings[2].0);
        },
        _ => {
            assert(bindings.len() == 1);
            assert(bindings[0].0 == bindings[0].0);
        },
    }
}

/// An instance has an id and a kind.
pub open spec fn has_instance(c: ConstructionModel, id: nat, kind: MacroModel) -> bool {
    exists|i: int| 0 <= i < c.instances.len() && (#[trigger] c.instances[i]).id == id && c.instances[i].kind == kind
}

/// A net begins at an input, at a constant or at a port that gives a value.
pub open spec fn begins_well(c: ConstructionModel, net: NetModel) -> bool {
    match net.from {
        EndpointModel::External(variable) => c.variables.contains(variable) || certificate::starts_with(
            variable,
            "const_"@,
        ),
        EndpointModel::Port(id, port) => exists|kind: MacroModel| #[trigger] has_instance(c, id, kind) && gives(kind, port),
    }
}

/// A net ends at a port that takes a value.
pub open spec fn ends_well(c: ConstructionModel, net: NetModel) -> bool {
    net.to matches EndpointModel::Port(id, port) && exists|kind: MacroModel| #[trigger]
        has_instance(c, id, kind) && reads(kind, port)
}

/// A port is the end of some net.
pub open spec fn is_driven(c: ConstructionModel, id: nat, port: Seq<char>) -> bool {
    exists|k: int| 0 <= k < c.nets.len() && (#[trigger] c.nets[k]).to == EndpointModel::Port(id, port)
}

/// A construction hangs together: its instances have ids of their own, the sink is an enforcer, no
/// instance is an input, each net begins and ends well, no two nets have an end in common, and every
/// port that takes a value is driven.
pub open spec fn hangs_together(c: ConstructionModel) -> bool {
    &&& forall|i: int, j: int| #![trigger c.instances[i], c.instances[j]]
        0 <= i < j < c.instances.len() ==> c.instances[i].id != c.instances[j].id
    &&& has_instance(c, c.output_sink, MacroModel::Enforcer)
    &&& forall|i: int| 0 <= i < c.instances.len() ==> (#[trigger] c.instances[i]).kind !is InputPort
    &&& forall|k: int| 0 <= k < c.nets.len() ==> begins_well(c, #[trigger] c.nets[k]) && ends_well(c, c.nets[k])
    &&& forall|j: int, k: int| #![trigger c.nets[j], c.nets[k]]
        0 <= j < k < c.nets.len() ==> c.nets[j].to != c.nets[k].to && c.nets[j].from != c.nets[k].from
    &&& forall|i: int, port: Seq<char>|
        0 <= i < c.instances.len() && #[trigger] reads(c.instances[i].kind, port) ==> is_driven(
            c,
            c.instances[i].id,
            port,
        )
}

proof fn lemma_kind(instances: Seq<InstanceModel>, k: nat, id: nat)
    requires
        k <= instances.len(),
    ensures
        lanes::kind_among(instances, k, id) matches Some(kind) ==> exists|i: int|
            0 <= i < k && (#[trigger] instances[i]).id == id && instances[i].kind == kind,
        lanes::kind_among(instances, k, id) is None ==> forall|i: int| 0 <= i < k ==> (#[trigger] instances[i]).id != id,
    decreases k,
{
    if k > 0 {
        lemma_kind(instances, (k - 1) as nat, id);
    }
}

proof fn lemma_kind_of(c: ConstructionModel, id: nat, kind: MacroModel)
    requires
        certificate::distinct_ids(c),
    ensures
        lanes::kind_of(c, id) == Some(kind) <==> has_instance(c, id, kind),
{
    lemma_kind(c.instances, c.instances.len(), id);
    if has_instance(c, id, kind) {
        let i = choose|i: int|
            0 <= i < c.instances.len() && (#[trigger] c.instances[i]).id == id && c.instances[i].kind == kind;
        let found = lanes::kind_of(c, id)->Some_0;
        let j = choose|j: int|
            0 <= j < c.instances.len() && (#[trigger] c.instances[j]).id == id && c.instances[j].kind == found;
        assert(!(i < j) && !(j < i));
    }
}

proof fn lemma_ends(c: ConstructionModel, net: NetModel)
    requires
        certificate::distinct_ids(c),
        certificate::no_input_ports(c),
    ensures
        certificate::source_failure(c, net.from) is None <==> begins_well(c, net),
        certificate::target_failure(c, net) is None <==> ends_well(c, net),
{
    if let EndpointModel::Port(id, port) = net.from {
        lemma_kind(c.instances, c.instances.len(), id);
        if let Some(kind) = lanes::kind_of(c, id) {
            lemma_kind_of(c, id, kind);
            lemma_roles(kind, port);
        }
        assert forall|kind: MacroModel| #[trigger] has_instance(c, id, kind) implies lanes::kind_of(c, id) == Some(kind) by {
            lemma_kind_of(c, id, kind);
        }
    }
    if let EndpointModel::Port(id, port) = net.to {
        lemma_kind(c.instances, c.instances.len(), id);
        if let Some(kind) = lanes::kind_of(c, id) {
            lemma_kind_of(c, id, kind);
            lemma_roles(kind, port);
        }
        assert forall|kind: MacroModel| #[trigger] has_instance(c, id, kind) implies lanes::kind_of(c, id) == Some(kind) by {
            lemma_kind_of(c, id, kind);
        }
    }
}

proof fn lemma_driver(nets: Seq<NetModel>, end: EndpointModel, k: nat)
    requires
        k <= nets.len(),
    ensures
        certificate::driver_among(nets, end, k) is Some <==> exists|j: int| 0 <= j < k && (#[trigger] nets[j]).to == end,
    decreases k,
{
    if k > 0 {
        lemma_driver(nets, end, (k - 1) as nat);
        if nets[k - 1].to == end {
            assert(nets[k - 1].to == end);
        }
    }
}

proof fn lemma_nets(c: ConstructionModel, k: nat)
    requires
        certificate::distinct_ids(c),
        certificate::no_input_ports(c),
        k <= c.nets.len(),
    ensures
        certificate::net_failure(c, k) is None <==> {
            &&& forall|n: int| 0 <= n < k ==> begins_well(c, #[trigger] c.nets[n]) && ends_well(c, c.nets[n])
            &&& forall|i: int, j: int| #![trigger c.nets[i], c.nets[j]] 0 <= i < j < k ==> c.nets[i].to != c.nets[j].to
        },
    decreases k,
{
    if k > 0 {
        lemma_nets(c, (k - 1) as nat);
        lemma_ends(c, c.nets[k - 1]);
        lemma_driver(c.nets, c.nets[k - 1].to, (k - 1) as nat);
        if certificate::driver_among(c.nets, c.nets[k - 1].to, (k - 1) as nat) is Some {
            let j = choose|j: int| 0 <= j < k - 1 && (#[trigger] c.nets[j]).to == c.nets[k - 1].to;
            assert(c.nets[j].to == c.nets[k - 1].to);
        }
    }
}

proof fn lemma_fanout(nets: Seq<NetModel>, end: EndpointModel, k: nat)
    requires
        k <= nets.len(),
    ensures
        certificate::fanout(nets, end, k) > 0 <==> exists|j: int| 0 <= j < k && (#[trigger] nets[j]).from == end,
        certificate::fanout(nets, end, k) > 1 <==> exists|i: int, j: int|
            0 <= i < j < k && (#[trigger] nets[i]).from == end && (#[trigger] nets[j]).from == end,
    decreases k,
{
    if k > 0 {
        lemma_fanout(nets, end, (k - 1) as nat);
        if nets[k - 1].from == end {
            assert(nets[k - 1].from == end);
            if certificate::fanout(nets, end, (k - 1) as nat) > 0 {
                let j = choose|j: int| 0 <= j < k - 1 && (#[trigger] nets[j]).from == end;
                assert(nets[j].from == end && nets[k - 1].from == end);
            }
        }
    }
}

proof fn lemma_fanouts(nets: Seq<NetModel>, k: nat)
    requires
        k <= nets.len(),
    ensures
        certificate::fanout_failure(nets, k) is None <==> forall|n: int|
            0 <= n < k ==> certificate::fanout(nets, (#[trigger] nets[n]).from, nets.len()) <= 1,
    decreases k,
{
    if k > 0 {
        lemma_fanouts(nets, (k - 1) as nat);
    }
}

proof fn lemma_undriven_port(c: ConstructionModel, instance: InstanceModel, k: nat)
    requires
        instance.kind !is InputPort,
        k <= contracts::logical_contract(instance.kind)->Some_0.bindings.len(),
    ensures
        ({
            let bindings = contracts::logical_contract(instance.kind)->Some_0.bindings;
            certificate::undriven_port(c, instance, k) is None <==> forall|b: int|
                0 <= b < k && (#[trigger] bindings[b]).2 == ContractPortRole::Input ==> is_driven(
                    c,
                    instance.id,
                    bindings[b].0,
                )
        }),
    decreases k,
{
    if k > 0 {
        lemma_undriven_port(c, instance, (k - 1) as nat);
        let bindings = contracts::logical_contract(instance.kind)->Some_0.bindings;
        let end = EndpointModel::Port(instance.id, bindings[k - 1].0);
        lemma_driver(c.nets, end, c.nets.len());
        assert(bindings[k - 1].2 == bindings[k - 1].2);
    }
}

proof fn lemma_undriven(c: ConstructionModel, k: nat)
    requires
        certificate::no_input_ports(c),
        k <= c.instances.len(),
    ensures
        certificate::undriven(c, k) is None <==> forall|i: int, port: Seq<char>|
            0 <= i < k && #[trigger] reads(c.instances[i].kind, port) ==> is_driven(c, c.instances[i].id, port),
    decreases k,
{
    if k > 0 {
        lemma_undriven(c, (k - 1) as nat);
        let instance = c.instances[k - 1];
        let bindings = contracts::logical_contract(instance.kind)->Some_0.bindings;
        lemma_undriven_port(c, instance, bindings.len());
        assert forall|port: Seq<char>| #[trigger] reads(instance.kind, port) implies exists|b: int|
            0 <= b < bindings.len() && (#[trigger] bindings[b]).0 == port && bindings[b].2 == ContractPortRole::Input by {
            lemma_roles(instance.kind, port);
        }
        assert forall|b: int|
            0 <= b < bindings.len() && (#[trigger] bindings[b]).2 == ContractPortRole::Input implies reads(
            instance.kind,
            bindings[b].0,
        ) by {
            lemma_roles(instance.kind, bindings[b].0);
        }
        if certificate::undriven(c, k) is None {
            assert forall|i: int, port: Seq<char>|
                0 <= i < k && #[trigger] reads(c.instances[i].kind, port) implies is_driven(c, c.instances[i].id, port) by {
                if i == k - 1 {
                    let b = choose|b: int|
                        0 <= b < bindings.len() && (#[trigger] bindings[b]).0 == port && bindings[b].2
                            == ContractPortRole::Input;
                    assert(is_driven(c, instance.id, bindings[b].0));
                }
            }
        }
        if forall|i: int, port: Seq<char>|
            0 <= i < k && #[trigger] reads(c.instances[i].kind, port) ==> is_driven(c, c.instances[i].id, port) {
            assert forall|i: int, port: Seq<char>|
                0 <= i < k - 1 && #[trigger] reads(c.instances[i].kind, port) implies is_driven(
                c,
                c.instances[i].id,
                port,
            ) by {}
            assert forall|b: int|
                0 <= b < bindings.len() && (#[trigger] bindings[b]).2 == ContractPortRole::Input implies is_driven(
                c,
                instance.id,
                bindings[b].0,
            ) by {
                assert(reads(c.instances[k - 1].kind, bindings[b].0));
            }
        }
    }
}

proof fn lemma_sources_apart(nets: Seq<NetModel>)
    ensures
        certificate::fanout_failure(nets, nets.len()) is None <==> forall|j: int, k: int| #![trigger nets[j], nets[k]]
            0 <= j < k < nets.len() ==> nets[j].from != nets[k].from,
{
    lemma_fanouts(nets, nets.len());
    if certificate::fanout_failure(nets, nets.len()) is None {
        assert forall|j: int, k: int| #![trigger nets[j], nets[k]] 0 <= j < k < nets.len() implies nets[j].from
            != nets[k].from by {
            assert(certificate::fanout(nets, nets[j].from, nets.len()) <= 1);
            lemma_fanout(nets, nets[j].from, nets.len());
        }
    }
    if forall|j: int, k: int| #![trigger nets[j], nets[k]]
        0 <= j < k < nets.len() ==> nets[j].from != nets[k].from {
        assert forall|n: int| 0 <= n < nets.len() implies certificate::fanout(
            nets,
            (#[trigger] nets[n]).from,
            nets.len(),
        ) <= 1 by {
            lemma_fanout(nets, nets[n].from, nets.len());
            if certificate::fanout(nets, nets[n].from, nets.len()) > 1 {
                let (i, j) = choose|i: int, j: int|
                    0 <= i < j < nets.len() && (#[trigger] nets[i]).from == nets[n].from && (#[trigger] nets[j]).from
                        == nets[n].from;
                assert(nets[i].from != nets[j].from);
            }
        }
    }
}

/// All nets begin and end well, and no two end at one port.
spec fn nets_end_well(c: ConstructionModel) -> bool {
    &&& forall|n: int| 0 <= n < c.nets.len() ==> begins_well(c, #[trigger] c.nets[n]) && ends_well(c, c.nets[n])
    &&& forall|i: int, j: int| #![trigger c.nets[i], c.nets[j]]
        0 <= i < j < c.nets.len() ==> c.nets[i].to != c.nets[j].to
}

/// No two nets begin at one end.
spec fn nets_begin_apart(nets: Seq<NetModel>) -> bool {
    forall|j: int, k: int| #![trigger nets[j], nets[k]] 0 <= j < k < nets.len() ==> nets[j].from != nets[k].from
}

/// Every port that takes a value is driven.
spec fn all_driven(c: ConstructionModel) -> bool {
    forall|i: int, port: Seq<char>|
        0 <= i < c.instances.len() && #[trigger] reads(c.instances[i].kind, port) ==> is_driven(
            c,
            c.instances[i].id,
            port,
        )
}

proof fn lemma_hangs_together(c: ConstructionModel)
    ensures
        hangs_together(c) <==> certificate::distinct_ids(c) && has_instance(c, c.output_sink, MacroModel::Enforcer)
            && certificate::no_input_ports(c) && nets_end_well(c) && nets_begin_apart(c.nets) && all_driven(c),
{
}

/// A construction passes the checks of its structure if and only if it hangs together.
pub proof fn law_sound_constructions_pass(c: ConstructionModel)
    ensures
        certificate::structure_failure(c) is None <==> hangs_together(c),
{
    lemma_hangs_together(c);
    if certificate::distinct_ids(c) {
        lemma_kind_of(c, c.output_sink, MacroModel::Enforcer);
        if certificate::no_input_ports(c) {
            assert(certificate::net_failure(c, c.nets.len()) is None <==> nets_end_well(c)) by {
                lemma_nets(c, c.nets.len());
            }
            assert(certificate::fanout_failure(c.nets, c.nets.len()) is None <==> nets_begin_apart(c.nets)) by {
                lemma_sources_apart(c.nets);
            }
            assert(certificate::undriven(c, c.instances.len()) is None <==> all_driven(c)) by {
                lemma_undriven(c, c.instances.len());
            }
        }
    }
}

} // verus!
