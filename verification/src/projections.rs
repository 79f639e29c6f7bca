//! What is shown at the ports of a gadget, and which assignments there are.

use crate::certificate;
use crate::circuit;
use crate::compiler::NetModel;
use crate::encoding;
use crate::encoding::Cell;
use crate::gadget_verifier;
use crate::gadget_verifier::{GadgetPattern, Port, PortAssignment, ProjectedPortState, VerifierError};
use crate::relations::States;
use crate::strmap;
use vstd::prelude::*;

verus! {

/// A port shows a state only where the cells are as the state says, and shows none only where the
/// cells are as no state says.
pub proof fn law_shown_state(port: Port, live: Set<Cell>)
    ensures
        gadget_verifier::shown_state(port, live) matches Some(state) ==> exists|i: int|
            0 <= i < port.states.key_seq().len() && (#[trigger] port.states.key_seq()[i]) == state
                && gadget_verifier::shows(live, port.states.value_seq()[i]@),
        gadget_verifier::shown_state(port, live) is None ==> forall|i: int|
            0 <= i < port.states.key_seq().len() ==> !gadget_verifier::shows(
                live,
                (#[trigger] port.states.value_seq()[i])@,
            ),
{
    if exists|i: int| gadget_verifier::shows_first(port, live, i) {
        let i = choose|i: int| gadget_verifier::shows_first(port, live, i);
        assert(port.states.key_seq()[i] == gadget_verifier::shown_state(port, live)->Some_0);
    } else {
        assert forall|i: int| 0 <= i < port.states.key_seq().len() implies !gadget_verifier::shows(
            live,
            (#[trigger] port.states.value_seq()[i])@,
        ) by {
            lemma_none_before(port, live, i);
        }
    }
}

proof fn lemma_none_before(port: Port, live: Set<Cell>, i: int)
    requires
        0 <= i < port.states.key_seq().len(),
        forall|n: int| !gadget_verifier::shows_first(port, live, n),
    ensures
        forall|j: int| 0 <= j <= i ==> !gadget_verifier::shows(live, (#[trigger] port.states.value_seq()[j])@),
    decreases i,
{
    if i > 0 {
        lemma_none_before(port, live, i - 1);
    }
    assert(!gadget_verifier::shows_first(port, live, i));
}

/// A predecessor of the gadget that keeps what is fixed, and shows a state at a port.
pub open spec fn can_be(
    gadget: &GadgetPattern,
    needs: gadget_verifier::Needs,
    port: Port,
    state: Option<Seq<char>>,
    live: Set<Cell>,
) -> bool {
    &&& encoding::is_preimage(live, gadget.target@)
    &&& gadget_verifier::meets(live, needs)
    &&& match state {
        Some(name) => exists|i: int|
            0 <= i < port.states.key_seq().len() && (#[trigger] port.states.key_seq()[i]) == name
                && gadget_verifier::shows(live, port.states.value_seq()[i]@),
        None => forall|i: int|
            0 <= i < port.states.key_seq().len() ==> !gadget_verifier::shows(
                live,
                (#[trigger] port.states.value_seq()[i])@,
            ),
    }
}

/// What is listed of the observed ports can be: some predecessor that keeps what is fixed shows it.
pub proof fn law_projected_states_can_be(
    timeout: Option<u64>,
    gadget: &GadgetPattern,
    fixed: &PortAssignment,
    observed: Seq<Seq<char>>,
    list: Vec<ProjectedPortState>,
    r: int,
    n: int,
)
    requires
        gadget_verifier::is_projection_result(
            Ok::<Vec<ProjectedPortState>, VerifierError>(list),
            timeout,
            gadget,
            fixed,
            observed,
        ),
        0 <= r < list@.len(),
        0 <= n < strmap::sorted_list(observed).len(),
    ensures
        ({
            let name = strmap::sorted_list(observed)[n];
            let port = gadget.ports@[gadget_verifier::port_position(gadget.ports@, name)];
            let row = gadget_verifier::row_of(list@[r].states.value_seq());
            exists|live: Set<Cell>| #[trigger]
                can_be(gadget, gadget_verifier::needs_of(gadget, fixed)->Ok_0, port, row[n], live)
        }),
{
    let names = strmap::sorted_list(observed);
    let needs = gadget_verifier::needs_of(gadget, fixed)->Ok_0;
    let row = gadget_verifier::row_of(list@[r].states.value_seq());
    assert(gadget_verifier::lists_row(list@, row));
    let live = choose|live: Set<Cell>| #[trigger]
        gadget_verifier::is_witness(gadget, needs, live) && gadget_verifier::shown_row(gadget, names, live) == row;
    let port = gadget.ports@[gadget_verifier::port_position(gadget.ports@, names[n])];
    law_shown_state(port, live);
    assert(row[n] == gadget_verifier::shown_state(port, live));
    assert(can_be(gadget, needs, port, row[n], live));
}

/// Whatever a predecessor that keeps what is fixed shows at the observed ports is listed.
pub proof fn law_predecessors_are_listed(
    timeout: Option<u64>,
    gadget: &GadgetPattern,
    fixed: &PortAssignment,
    observed: Seq<Seq<char>>,
    list: Vec<ProjectedPortState>,
    live: Set<Cell>,
)
    requires
        gadget_verifier::is_projection_result(
            Ok::<Vec<ProjectedPortState>, VerifierError>(list),
            timeout,
            gadget,
            fixed,
            observed,
        ),
        encoding::is_preimage(live, gadget.target@),
        gadget_verifier::meets(live, gadget_verifier::needs_of(gadget, fixed)->Ok_0),
    ensures
        exists|r: int|
            0 <= r < list@.len() && gadget_verifier::row_of((#[trigger] list@[r]).states.value_seq())
                == gadget_verifier::shown_row(gadget, strmap::sorted_list(observed), live),
{
    let names = strmap::sorted_list(observed);
    let needs = gadget_verifier::needs_of(gadget, fixed)->Ok_0;
    let row = gadget_verifier::shown_row(gadget, names, live);
    assert(gadget_verifier::is_witness(gadget, needs, live));
    assert(gadget_verifier::can_show(gadget, needs, names, row));
    assert(gadget_verifier::lists_row(list@, row));
}

proof fn lemma_extended(list: Seq<States>, name: Seq<char>, states: Seq<Seq<char>>, n: nat, map: States)
    requires
        n <= list.len(),
    ensures
        gadget_verifier::extended(list, name, states, n).contains(map) <==> exists|e: int, s: int|
            0 <= e < n && 0 <= s < states.len() && map == (#[trigger] list[e]).insert(name, #[trigger] states[s]),
    decreases n,
{
    if n > 0 {
        lemma_extended(list, name, states, (n - 1) as nat, map);
        let earlier = gadget_verifier::extended(list, name, states, (n - 1) as nat);
        let added = Seq::new(states.len(), |s: int| list[n - 1].insert(name, states[s]));
        let all = gadget_verifier::extended(list, name, states, n);
        assert(all == earlier + added);
        if earlier.contains(map) {
            let i = choose|i: int| 0 <= i < earlier.len() && earlier[i] == map;
            assert(all[i] == map);
        }
        if all.contains(map) && !earlier.contains(map) {
            let i = choose|i: int| 0 <= i < all.len() && all[i] == map;
            if i < earlier.len() {
                assert(earlier[i] == map);
            }
            assert(added[i - earlier.len()] == map);
            assert(map == list[n - 1].insert(name, states[i - earlier.len()]));
        }
        if exists|e: int, s: int|
            0 <= e < n && 0 <= s < states.len() && map == (#[trigger] list[e]).insert(name, #[trigger] states[s]) {
            let (e, s) = choose|e: int, s: int|
                0 <= e < n && 0 <= s < states.len() && map == (#[trigger] list[e]).insert(name, #[trigger] states[s]);
            if e == n - 1 {
                assert(added[s] == map);
                assert(all[earlier.len() + s] == map);
            } else {
                assert(map == list[e].insert(name, states[s]));
            }
        }
    }
}

/// The states to choose from at a port: those that are given, or all where none is.
pub open spec fn may_have(gadget: &GadgetPattern, name: Seq<char>, given: Seq<Seq<char>>, state: Seq<char>) -> bool {
    let port = gadget.ports@[gadget_verifier::port_position(gadget.ports@, name)];
    if given.len() == 0 {
        port.states.key_seq().contains(state)
    } else {
        given.contains(state)
    }
}

/// An assignment gives each of the first `k` ports one of the states to choose from, and other ports
/// none.
pub open spec fn is_selection(
    gadget: &GadgetPattern,
    names: Seq<Seq<char>>,
    states: Seq<Vec<String>>,
    k: nat,
    map: States,
) -> bool {
    &&& forall|i: int|
        0 <= i < k ==> map.contains_key(#[trigger] names[i]) && may_have(
            gadget,
            names[i],
            circuit::texts(states[i]@),
            map[names[i]],
        )
    &&& forall|key: Seq<char>| #[trigger] map.contains_key(key) ==> exists|i: int| 0 <= i < k && #[trigger] names[i] == key
}

/// The assignments to some ports are all the ways to give each of them one of the states to choose
/// from.
pub proof fn law_assignments_are_selections(
    gadget: &GadgetPattern,
    names: Seq<Seq<char>>,
    states: Seq<Vec<String>>,
    k: nat,
    map: States,
)
    requires
        k <= names.len(),
        names.no_duplicates(),
    ensures
        gadget_verifier::products(gadget, names, states, k).contains(map) <==> is_selection(gadget, names, states, k, map),
    decreases k,
{
    let list = gadget_verifier::products(gadget, names, states, k);
    if k == 0 {
        assert(list[0] == Map::<Seq<char>, Seq<char>>::empty());
        if is_selection(gadget, names, states, k, map) {
            assert(map =~= Map::empty());
        }
    } else {
        let name = names[k - 1];
        let port = gadget.ports@[gadget_verifier::port_position(gadget.ports@, name)];
        let earlier = gadget_verifier::products(gadget, names, states, (k - 1) as nat);
        let chosen = gadget_verifier::chosen_states(port, circuit::texts(states[k - 1]@));
        lemma_extended(earlier, name, chosen, earlier.len(), map);
        if list.contains(map) {
            let (e, s) = choose|e: int, s: int|
                0 <= e < earlier.len() && 0 <= s < chosen.len() && map == (#[trigger] earlier[e]).insert(
                    name,
                    #[trigger] chosen[s],
                );
            let before = earlier[e];
            assert(earlier.contains(before));
            law_assignments_are_selections(gadget, names, states, (k - 1) as nat, before);
            assert(chosen.contains(chosen[s]));
            assert forall|i: int| 0 <= i < k implies map.contains_key(#[trigger] names[i]) && may_have(
                gadget,
                names[i],
                circuit::texts(states[i]@),
                map[names[i]],
            ) by {
                if i < k - 1 {
                    assert(names[i] != name);
                    assert(before.contains_key(names[i]));
                }
            }
            assert forall|key: Seq<char>| #[trigger] map.contains_key(key) implies exists|i: int|
                0 <= i < k && #[trigger] names[i] == key by {
                if key == name {
                    assert(names[k - 1] == key);
                } else {
                    assert(before.contains_key(key));
                    let i = choose|i: int| 0 <= i < k - 1 && #[trigger] names[i] == key;
                    assert(names[i] == key);
                }
            }
        }
        if is_selection(gadget, names, states, k, map) {
            let before = map.remove(name);
            assert(map.contains_key(names[k - 1]));
            assert(is_selection(gadget, names, states, (k - 1) as nat, before)) by {
                assert forall|i: int| 0 <= i < k - 1 implies before.contains_key(#[trigger] names[i]) && may_have(
                    gadget,
                    names[i],
                    circuit::texts(states[i]@),
                    before[names[i]],
                ) by {
                    assert(names[i] != name);
                    assert(map.contains_key(names[i]));
                }
                assert forall|key: Seq<char>| #[trigger] before.contains_key(key) implies exists|i: int|
                    0 <= i < k - 1 && #[trigger] names[i] == key by {
                    assert(map.contains_key(key));
                    let i = choose|i: int| 0 <= i < k && #[trigger] names[i] == key;
                    assert(i != k - 1);
                }
            }
            law_assignments_are_selections(gadget, names, states, (k - 1) as nat, before);
            let e = choose|e: int| 0 <= e < earlier.len() && earlier[e] == before;
            assert(chosen.contains(map[name]));
            let s = choose|s: int| 0 <= s < chosen.len() && chosen[s] == map[name];
            assert(map =~= earlier[e].insert(name, chosen[s]));
        }
    }
}

/// The nets of a construction fall into those from outside and those from instances, and each list
/// has its nets in their order.
pub proof fn law_nets_fall_apart(nets: Seq<NetModel>, outside: bool, k: nat)
    requires
        k <= nets.len(),
    ensures
        ({
            let list = certificate::nets_from(nets, outside, k);
            &&& list.len() + certificate::nets_from(nets, !outside, k).len() == k
            &&& forall|i: int| 0 <= i < list.len() ==> ((#[trigger] list[i]).from is External <==> outside)
            &&& forall|n: int|
                0 <= n < k && ((#[trigger] nets[n]).from is External <==> outside) ==> list.contains(nets[n])
            &&& forall|i: int| 0 <= i < list.len() ==> nets.contains(#[trigger] list[i])
        }),
    decreases k,
{
    if k > 0 {
        law_nets_fall_apart(nets, outside, (k - 1) as nat);
        let earlier = certificate::nets_from(nets, outside, (k - 1) as nat);
        let list = certificate::nets_from(nets, outside, k);
        assert forall|n: int|
            0 <= n < k && ((#[trigger] nets[n]).from is External <==> outside) implies list.contains(nets[n]) by {
            if n < k - 1 {
                assert(earlier.contains(nets[n]));
                let i = choose|i: int| 0 <= i < earlier.len() && earlier[i] == nets[n];
                assert(list[i] == nets[n]);
            } else {
                assert(list[list.len() - 1] == nets[n]);
            }
        }
    }
}

} // verus!
