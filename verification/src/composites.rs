//! Patterns that share wires, and the relation that they keep together.
//!
//! Patterns stand side by side, and some of their ports are joined in pairs. The other ports
//! are those of the whole. The whole allows what its parts allow such that joined ports have
//! equal states.

use crate::bits;
use crate::circuit;
use crate::encoding::CellCoord;
use crate::gadget_verifier;
use crate::gadget_verifier::{GadgetPattern, PortAssignment};
use crate::library;
use crate::library::{published_spec_named, PublishedSpec, SpecModel};
use crate::published;
use crate::published::{load_published_gadget, PatternError, PatternFailure, PatternFiles, PublishedPattern, WireAnchors};
use crate::relations;
use crate::relations::{holds_states, number_text, one_char, power_of_two, States};
use crate::strmap;
use crate::text;
use crate::text::{chars_of, same_text, text_before};
use vstd::prelude::*;

verus! {

/// A part of a whole: its role, and what the library says of it.
pub struct PartModel {
    pub role: Seq<char>,
    pub spec: SpecModel,
}

/// Two ports that are joined, over texts.
pub struct SharedModel {
    pub left_role: Seq<char>,
    pub left_port: Seq<char>,
    pub right_role: Seq<char>,
    pub right_port: Seq<char>,
}

/// Two ports that are joined.
#[derive(Debug, Clone, Copy)]
pub struct SharedPort {
    pub left_role: &'static str,
    pub left_port: &'static str,
    pub right_role: &'static str,
    pub right_port: &'static str,
}

impl View for SharedPort {
    type V = SharedModel;

    open spec fn view(&self) -> SharedModel {
        SharedModel {
            left_role: self.left_role@,
            left_port: self.left_port@,
            right_role: self.right_role@,
            right_port: self.right_port@,
        }
    }
}

impl SharedPort {
    /// Joins two ports.
    pub fn new(
        left_role: &'static str,
        left_port: &'static str,
        right_role: &'static str,
        right_port: &'static str,
    ) -> (shared: Self)
        ensures
            shared.left_role == left_role,
            shared.left_port == left_port,
            shared.right_role == right_role,
            shared.right_port == right_port,
    {
        SharedPort { left_role, left_port, right_role, right_port }
    }
}

/// Joined ports, over texts.
pub open spec fn shared_models(shared: Seq<SharedPort>) -> Seq<SharedModel> {
    Seq::new(shared.len(), |i: int| shared[i]@)
}

/// The port is one of the two.
pub open spec fn is_side(shared: SharedModel, role: Seq<char>, port: Seq<char>) -> bool {
    (shared.left_role == role && shared.left_port == port) || (shared.right_role == role && shared.right_port == port)
}

/// The port is joined to another.
pub open spec fn is_shared(shared: Seq<SharedModel>, role: Seq<char>, port: Seq<char>) -> bool {
    exists|i: int| 0 <= i < shared.len() && is_side(#[trigger] shared[i], role, port)
}

/// The name that a port of a part has in the whole.
pub open spec fn renamed(role: Seq<char>, port: Seq<char>) -> Seq<char> {
    role + "_"@ + port
}

/// A wire of a part is a port of the whole.
pub open spec fn is_outer(part: PartModel, shared: Seq<SharedModel>, wire: char) -> bool {
    library::is_wire_name(wire) && !is_shared(shared, part.role, seq![wire])
}

/// The ports of the whole that are among the first `k` wires of a part.
pub open spec fn outer_wires(part: PartModel, shared: Seq<SharedModel>, k: nat) -> Seq<Seq<char>>
    decreases k,
{
    if k == 0 {
        Seq::empty()
    } else if is_outer(part, shared, part.spec.wires[k - 1]) {
        outer_wires(part, shared, (k - 1) as nat).push(renamed(part.role, seq![part.spec.wires[k - 1]]))
    } else {
        outer_wires(part, shared, (k - 1) as nat)
    }
}

/// The ports of the whole that the first `k` parts have.
pub open spec fn outer_ports(parts: Seq<PartModel>, shared: Seq<SharedModel>, k: nat) -> Seq<Seq<char>>
    decreases k,
{
    if k == 0 {
        Seq::empty()
    } else {
        outer_ports(parts, shared, (k - 1) as nat) + outer_wires(
            parts[k - 1],
            shared,
            parts[k - 1].spec.wires.len(),
        )
    }
}

/// One row of the relation of every part.
pub open spec fn is_choice(parts: Seq<PartModel>, choice: Seq<usize>) -> bool {
    &&& choice.len() == parts.len()
    &&& forall|i: int| 0 <= i < choice.len() ==> #[trigger] choice[i] < parts[i].spec.items.len()
}

/// A row of the relation of a part.
pub open spec fn part_row(part: PartModel, row: usize) -> States {
    relations::allowed_states(part.spec)[row as int]
}

/// The position of the first part with a role, and the number of parts where there is none.
pub open spec fn part_position(parts: Seq<PartModel>, role: Seq<char>) -> int
    decreases parts.len(),
{
    if parts.len() == 0 || parts[0].role == role {
        0
    } else {
        1 + part_position(parts.drop_first(), role)
    }
}

/// The state of a port of the first part with a role.
pub open spec fn state_at(
    parts: Seq<PartModel>,
    choice: Seq<usize>,
    role: Seq<char>,
    port: Seq<char>,
) -> Option<Seq<char>> {
    let i = part_position(parts, role);
    if i < parts.len() && part_row(parts[i], choice[i]).contains_key(port) {
        Some(part_row(parts[i], choice[i])[port])
    } else {
        None
    }
}

/// The two joined ports have equal states.
pub open spec fn agrees(parts: Seq<PartModel>, choice: Seq<usize>, shared: SharedModel) -> bool {
    let left = state_at(parts, choice, shared.left_role, shared.left_port);
    left is Some && left == state_at(parts, choice, shared.right_role, shared.right_port)
}

/// Joined ports have equal states.
pub open spec fn respects(parts: Seq<PartModel>, choice: Seq<usize>, shared: Seq<SharedModel>) -> bool {
    forall|k: int| 0 <= k < shared.len() ==> agrees(parts, choice, #[trigger] shared[k])
}

/// The states with those of the first `k` wires of a part added.
pub open spec fn with_part(
    states: States,
    part: PartModel,
    row: States,
    shared: Seq<SharedModel>,
    k: nat,
) -> States
    decreases k,
{
    if k == 0 {
        states
    } else {
        let earlier = with_part(states, part, row, shared, (k - 1) as nat);
        let wire = part.spec.wires[k - 1];
        if is_outer(part, shared, wire) {
            earlier.insert(renamed(part.role, seq![wire]), row[seq![wire]])
        } else {
            earlier
        }
    }
}

/// The states of the ports of the whole that the first `k` parts have.
pub open spec fn joined_states(
    parts: Seq<PartModel>,
    choice: Seq<usize>,
    shared: Seq<SharedModel>,
    k: nat,
) -> States
    decreases k,
{
    if k == 0 {
        Map::empty()
    } else {
        let part = parts[k - 1];
        with_part(
            joined_states(parts, choice, shared, (k - 1) as nat),
            part,
            part_row(part, choice[k - 1]),
            shared,
            part.spec.wires.len(),
        )
    }
}

/// The rows begin with the given ones.
pub open spec fn begins_with(choice: Seq<usize>, prefix: Seq<usize>) -> bool {
    &&& prefix.len() <= choice.len()
    &&& forall|i: int| 0 <= i < prefix.len() ==> #[trigger] choice[i] == prefix[i]
}

/// The rows make a row of the whole.
pub open spec fn makes(
    parts: Seq<PartModel>,
    shared: Seq<SharedModel>,
    choice: Seq<usize>,
    states: States,
) -> bool {
    is_choice(parts, choice) && respects(parts, choice, shared) && states == joined_states(
        parts,
        choice,
        shared,
        parts.len(),
    )
}

/// The whole allows the states, by rows that begin with the given ones.
pub open spec fn allowed_from(
    parts: Seq<PartModel>,
    shared: Seq<SharedModel>,
    prefix: Seq<usize>,
    states: States,
) -> bool {
    exists|choice: Seq<usize>| #[trigger] makes(parts, shared, choice, states) && begins_with(choice, prefix)
}

/// The whole allows the states.
pub open spec fn is_allowed(parts: Seq<PartModel>, shared: Seq<SharedModel>, states: States) -> bool {
    exists|choice: Seq<usize>| #[trigger] makes(parts, shared, choice, states)
}

/// At a key states come before others, and at all earlier keys they are the same.
pub open spec fn differs_at(keys: Seq<Seq<char>>, a: States, b: States, i: int) -> bool {
    &&& 0 <= i < keys.len()
    &&& forall|j: int| 0 <= j < i ==> a[#[trigger] keys[j]] == b[keys[j]]
    &&& text::text_less(a[keys[i]], b[keys[i]])
}

/// States come before others: at the first key where they differ.
pub open spec fn states_less(keys: Seq<Seq<char>>, a: States, b: States) -> bool {
    exists|i: int| #[trigger] differs_at(keys, a, b, i)
}

/// The states that the binary digits of a number give to the first `k` ports.
pub open spec fn digit_states(ports: Seq<Seq<char>>, mask: nat, k: nat) -> States
    decreases k,
{
    if k == 0 {
        Map::empty()
    } else {
        digit_states(ports, mask, (k - 1) as nat).insert(
            ports[k - 1],
            if bits::mask_bit(mask, (k - 1) as nat) {
                "1"@
            } else {
                "0"@
            },
        )
    }
}

/// Of the first `m` ways to give the ports states, those that are not allowed.
pub open spec fn other_states(ports: Seq<Seq<char>>, allowed: Seq<States>, m: nat) -> Seq<States>
    decreases m,
{
    if m == 0 {
        Seq::empty()
    } else {
        let earlier = other_states(ports, allowed, (m - 1) as nat);
        let states = digit_states(ports, (m - 1) as nat, ports.len());
        if allowed.contains(states) {
            earlier
        } else {
            earlier.push(states)
        }
    }
}

/// The ports of a whole, and what it allows and forbids.
#[derive(Debug)]
pub struct CompositeRelation {
    pub external_ports: Vec<String>,
    pub allowed: Vec<PortAssignment>,
    pub forbidden: Vec<PortAssignment>,
}

/// The relation of a whole.
pub open spec fn is_composite_relation(
    relation: CompositeRelation,
    parts: Seq<PartModel>,
    shared: Seq<SharedModel>,
) -> bool {
    let ports = outer_ports(parts, shared, parts.len());
    let allowed = gadget_verifier::assignment_maps(relation.allowed@);
    &&& circuit::texts(relation.external_ports@) == ports
    &&& gadget_verifier::assignments_wf(relation.allowed@)
    &&& gadget_verifier::assignments_wf(relation.forbidden@)
    &&& forall|states: States| #[trigger] allowed.contains(states) <==> is_allowed(parts, shared, states)
    &&& forall|i: int, j: int| #![trigger allowed[i], allowed[j]]
        0 <= i < j < allowed.len() ==> states_less(strmap::sorted_list(ports), allowed[i], allowed[j])
    &&& gadget_verifier::assignment_maps(relation.forbidden@) == other_states(
        ports,
        allowed,
        bits::two_to(ports.len()),
    )
}

/// A pattern with the role that it plays.
#[derive(Debug)]
pub struct LoadedPiece {
    pub role: &'static str,
    pub spec: PublishedSpec,
    pub pattern: PublishedPattern,
    pub gadget: GadgetPattern,
}

impl View for LoadedPiece {
    type V = PartModel;

    open spec fn view(&self) -> PartModel {
        PartModel { role: self.role@, spec: self.spec@ }
    }
}

impl LoadedPiece {
    /// The piece's validity: its gadget is that of its pattern.
    pub open spec fn wf(&self) -> bool {
        &&& library::regular(self.spec@)
        &&& self.pattern.scannable()
        &&& self.pattern@.len() > 0
        &&& self.pattern.width > 0
        &&& self.pattern.width == self.pattern@[0].len()
        &&& published::is_gadget_of(&self.gadget, &self.pattern, self.spec@.name)
    }
}

/// The parts of a whole.
pub open spec fn parts_of(pieces: Seq<&LoadedPiece>) -> Seq<PartModel> {
    Seq::new(pieces.len(), |i: int| pieces[i]@)
}

/// The pieces are valid.
pub open spec fn pieces_wf(pieces: Seq<&LoadedPiece>) -> bool {
    forall|i: int| 0 <= i < pieces.len() ==> (#[trigger] pieces[i]).wf()
}

/// The state that a row of a regular relation gives to a wire.
proof fn lemma_row_state(spec: SpecModel, r: int, j: int, k: nat)
    requires
        library::regular(spec),
        0 <= r < spec.items.len(),
        0 <= j < spec.wires.len(),
        k <= spec.wires.len(),
    ensures
        relations::item_states(spec.wires, spec.items[r], k).contains_key(seq![spec.wires[j]]) == (j < k),
        j < k ==> relations::item_states(spec.wires, spec.items[r], k)[seq![spec.wires[j]]] == text::decimal(
            spec.items[r][j] as nat,
        ),
    decreases k,
{
    if k > 0 {
        lemma_row_state(spec, r, j, (k - 1) as nat);
        let last = seq![spec.wires[k - 1]];
        if j != k - 1 {
            assert(seq![spec.wires[j]][0] != last[0]);
        }
    }
}

/// The keys of a row are the names of the wires.
proof fn lemma_row_keys(spec: SpecModel, r: int, port: Seq<char>, k: nat)
    requires
        0 <= r < spec.items.len(),
        k <= spec.wires.len(),
        forall|j: int| 0 <= j < k ==> seq![#[trigger] spec.wires[j]] != port,
    ensures
        !relations::item_states(spec.wires, spec.items[r], k).contains_key(port),
    decreases k,
{
    if k > 0 {
        lemma_row_keys(spec, r, port, (k - 1) as nat);
        assert(seq![spec.wires[k - 1]] != port);
    }
}

proof fn lemma_part_position(parts: Seq<PartModel>, role: Seq<char>, i: int)
    requires
        0 <= i <= parts.len(),
        forall|j: int| 0 <= j < i ==> (#[trigger] parts[j]).role != role,
        i < parts.len() ==> parts[i].role == role,
    ensures
        part_position(parts, role) == i,
    decreases parts.len(),
{
    if parts.len() > 0 && i > 0 {
        assert(parts[0].role != role);
        let rest = parts.drop_first();
        assert forall|j: int| 0 <= j < i - 1 implies (#[trigger] rest[j]).role != role by {
            assert(rest[j] == parts[j + 1]);
        }
        lemma_part_position(rest, role, i - 1);
    }
}

/// Whether a port is joined to another.
pub(crate) fn is_shared_port(shared: &Vec<SharedPort>, role: &str, port: &str) -> (found: bool)
    ensures
        found == is_shared(shared_models(shared@), role@, port@),
{
    let ghost models = shared_models(shared@);
    let mut i: usize = 0;
    while i < shared.len()
        invariant
            i <= shared@.len(),
            models == shared_models(shared@),
            forall|j: int| 0 <= j < i ==> !is_side(#[trigger] models[j], role@, port@),
        decreases shared.len() - i,
    {
        let one: SharedPort = shared[i];
        assert(models[i as int] == one@);
        if (same_text(one.left_role, role) && same_text(one.left_port, port)) || (same_text(one.right_role, role)
            && same_text(one.right_port, port)) {
            assert(is_side(models[i as int], role@, port@));
            return true;
        }
        i += 1;
    }
    false
}

/// Whether a wire is named after an edge.
fn is_wire(c: char) -> (result: bool)
    ensures
        result == library::is_wire_name(c),
{
    c == 'E' || c == 'N' || c == 'W' || c == 'S'
}

/// The name that a port of a part has in the whole.
pub(crate) fn rename_port(role: &str, port: &str) -> (name: String)
    ensures
        name@ == renamed(role@, port@),
{
    let mut name: String = role.to_owned();
    name.append("_");
    name.append(port);
    name
}

/// The ports of the whole.
fn external_ports(pieces: &Vec<&LoadedPiece>, shared: &Vec<SharedPort>) -> (ports: Vec<String>)
    ensures
        circuit::texts(ports@) == outer_ports(parts_of(pieces@), shared_models(shared@), pieces@.len()),
{
    let ghost parts = parts_of(pieces@);
    let ghost models = shared_models(shared@);
    let mut ports: Vec<String> = Vec::new();
    let mut k: usize = 0;
    assert(circuit::texts(ports@) =~= Seq::<Seq<char>>::empty());
    while k < pieces.len()
        invariant
            k <= pieces@.len(),
            parts == parts_of(pieces@),
            models == shared_models(shared@),
            circuit::texts(ports@) == outer_ports(parts, models, k as nat),
        decreases pieces.len() - k,
    {
        let piece: &LoadedPiece = pieces[k];
        let ghost part = parts[k as int];
        assert(part == piece@);
        let wires: Vec<char> = chars_of(piece.spec.relation_wires);
        let ghost start = circuit::texts(ports@);
        let mut j: usize = 0;
        assert(start + outer_wires(part, models, 0) =~= start);
        while j < wires.len()
            invariant
                j <= wires@.len(),
                part == piece@,
                wires@ == part.spec.wires,
                models == shared_models(shared@),
                circuit::texts(ports@) == start + outer_wires(part, models, j as nat),
            decreases wires.len() - j,
        {
            let port: String = one_char(wires[j]);
            if is_wire(wires[j]) && !is_shared_port(shared, piece.role, port.as_str()) {
                let ghost before = ports@;
                let name: String = rename_port(piece.role, port.as_str());
                ports.push(name);
                proof {
                    assert(circuit::texts(ports@) =~= circuit::texts(before).push(name@));
                    assert(start + outer_wires(part, models, (j + 1) as nat) =~= (start + outer_wires(
                        part,
                        models,
                        j as nat,
                    )).push(name@));
                }
            }
            j += 1;
        }
        k += 1;
    }
    ports
}

/// The state of a port of the first part with a role.
fn find_state(pieces: &Vec<&LoadedPiece>, choice: &Vec<usize>, role: &str, port: &str) -> (state: Option<String>)
    requires
        pieces_wf(pieces@),
        is_choice(parts_of(pieces@), choice@),
    ensures
        match state {
            Some(text) => state_at(parts_of(pieces@), choice@, role@, port@) == Some(text@),
            None => state_at(parts_of(pieces@), choice@, role@, port@) is None,
        },
{
    let ghost parts = parts_of(pieces@);
    let mut i: usize = 0;
    while i < pieces.len()
        invariant
            i <= pieces@.len(),
            parts == parts_of(pieces@),
            pieces_wf(pieces@),
            is_choice(parts, choice@),
            forall|j: int| 0 <= j < i ==> (#[trigger] parts[j]).role != role@,
        decreases pieces.len() - i,
    {
        let piece: &LoadedPiece = pieces[i];
        assert(parts[i as int] == piece@);
        if same_text(piece.role, role) {
            proof {
                lemma_part_position(parts, role@, i as int);
            }
            assert(pieces@[i as int].wf());
            assert(choice@[i as int] < parts[i as int].spec.items.len());
            return wire_state(piece, choice[i], port);
        }
        i += 1;
    }
    proof {
        lemma_part_position(parts, role@, i as int);
    }
    None
}

/// The state that a row of a part's relation gives to a port.
fn wire_state(piece: &LoadedPiece, row: usize, port: &str) -> (state: Option<String>)
    requires
        piece.wf(),
        row < piece@.spec.items.len(),
    ensures
        match state {
            Some(text) => part_row(piece@, row).contains_key(port@) && part_row(piece@, row)[port@] == text@,
            None => !part_row(piece@, row).contains_key(port@),
        },
{
    let ghost spec = piece@.spec;
    let wires: Vec<char> = chars_of(piece.spec.relation_wires);
    assert(spec.items[row as int].len() == spec.wires.len());
    let mut j: usize = 0;
    while j < wires.len()
        invariant
            j <= wires@.len(),
            piece.wf(),
            spec == piece@.spec,
            wires@ == spec.wires,
            row < spec.items.len(),
            spec.items[row as int].len() == spec.wires.len(),
            forall|i: int| 0 <= i < j ==> seq![#[trigger] spec.wires[i]] != port@,
        decreases wires.len() - j,
    {
        let name: String = one_char(wires[j]);
        if same_text(name.as_str(), port) {
            proof {
                lemma_row_state(spec, row as int, j as int, spec.wires.len());
            }
            assert(spec.items[row as int] == piece.spec.relation_items@[row as int]@);
            return Some(number_text(piece.spec.relation_items[row][j]));
        }
        j += 1;
    }
    proof {
        lemma_row_keys(spec, row as int, port@, spec.wires.len());
    }
    None
}

/// Whether joined ports have equal states.
fn rows_respect_shared_ports(pieces: &Vec<&LoadedPiece>, choice: &Vec<usize>, shared: &Vec<SharedPort>) -> (result: bool)
    requires
        pieces_wf(pieces@),
        is_choice(parts_of(pieces@), choice@),
    ensures
        result == respects(parts_of(pieces@), choice@, shared_models(shared@)),
{
    let ghost parts = parts_of(pieces@);
    let ghost models = shared_models(shared@);
    let mut k: usize = 0;
    while k < shared.len()
        invariant
            k <= shared@.len(),
            parts == parts_of(pieces@),
            models == shared_models(shared@),
            pieces_wf(pieces@),
            is_choice(parts, choice@),
            forall|i: int| 0 <= i < k ==> agrees(parts, choice@, #[trigger] models[i]),
        decreases shared.len() - k,
    {
        let one: SharedPort = shared[k];
        assert(models[k as int] == one@);
        let same: bool = match (
            find_state(pieces, choice, one.left_role, one.left_port),
            find_state(pieces, choice, one.right_role, one.right_port),
        ) {
            (Some(left), Some(right)) => same_text(left.as_str(), right.as_str()),
            _ => false,
        };
        if !same {
            assert(!agrees(parts, choice@, models[k as int]));
            return false;
        }
        k += 1;
    }
    true
}

/// The states of the ports of the whole.
fn joined_assignment(pieces: &Vec<&LoadedPiece>, choice: &Vec<usize>, shared: &Vec<SharedPort>) -> (assignment: PortAssignment)
    requires
        pieces_wf(pieces@),
        is_choice(parts_of(pieces@), choice@),
    ensures
        assignment.wf(),
        assignment@ == joined_states(parts_of(pieces@), choice@, shared_models(shared@), pieces@.len()),
{
    let ghost parts = parts_of(pieces@);
    let ghost models = shared_models(shared@);
    let mut assignment: PortAssignment = PortAssignment::new();
    let mut k: usize = 0;
    while k < pieces.len()
        invariant
            k <= pieces@.len(),
            parts == parts_of(pieces@),
            models == shared_models(shared@),
            pieces_wf(pieces@),
            is_choice(parts, choice@),
            assignment.wf(),
            assignment@ == joined_states(parts, choice@, models, k as nat),
        decreases pieces.len() - k,
    {
        let piece: &LoadedPiece = pieces[k];
        let ghost part = parts[k as int];
        assert(part == piece@);
        assert(pieces@[k as int].wf());
        assert(choice@[k as int] < part.spec.items.len());
        let row: usize = choice[k];
        let ghost row_states = part_row(part, row);
        let ghost start = assignment@;
        let wires: Vec<char> = chars_of(piece.spec.relation_wires);
        assert(part.spec.items[row as int].len() == part.spec.wires.len());
        assert(part.spec.items[row as int] == piece.spec.relation_items@[row as int]@);
        let mut j: usize = 0;
        while j < wires.len()
            invariant
                j <= wires@.len(),
                piece.wf(),
                part == piece@,
                wires@ == part.spec.wires,
                models == shared_models(shared@),
                row < part.spec.items.len(),
                row_states == part_row(part, row),
                part.spec.items[row as int].len() == part.spec.wires.len(),
                part.spec.items[row as int] == piece.spec.relation_items@[row as int]@,
                piece.spec.relation_items@.len() == part.spec.items.len(),
                assignment.wf(),
                assignment@ == with_part(start, part, row_states, models, j as nat),
            decreases wires.len() - j,
        {
            let port: String = one_char(wires[j]);
            if is_wire(wires[j]) && !is_shared_port(shared, piece.role, port.as_str()) {
                proof {
                    lemma_row_state(part.spec, row as int, j as int, part.spec.wires.len());
                }
                let name: String = rename_port(piece.role, port.as_str());
                let value: String = number_text(piece.spec.relation_items[row][j]);
                assignment = assignment.with_state(name.as_str(), value.as_str());
            }
            j += 1;
        }
        k += 1;
    }
    assignment
}

proof fn lemma_part_keys(states: States, part: PartModel, row: States, shared: Seq<SharedModel>, k: nat)
    requires
        k <= part.spec.wires.len(),
    ensures
        forall|key: Seq<char>| #[trigger]
            with_part(states, part, row, shared, k).contains_key(key) <==> states.contains_key(key) || outer_wires(
                part,
                shared,
                k,
            ).contains(key),
    decreases k,
{
    if k > 0 {
        lemma_part_keys(states, part, row, shared, (k - 1) as nat);
        let earlier = outer_wires(part, shared, (k - 1) as nat);
        let added = renamed(part.role, seq![part.spec.wires[k - 1]]);
        assert forall|key: Seq<char>| #[trigger]
            with_part(states, part, row, shared, k).contains_key(key) <==> states.contains_key(key) || outer_wires(
                part,
                shared,
                k,
            ).contains(key) by {
            assert(with_part(states, part, row, shared, (k - 1) as nat).contains_key(key) <==> states.contains_key(key)
                || earlier.contains(key));
            lemma_push_contains(earlier, added, key);
        }
    } else {
        assert(outer_wires(part, shared, 0) =~= Seq::<Seq<char>>::empty());
    }
}

proof fn lemma_push_contains(list: Seq<Seq<char>>, added: Seq<char>, key: Seq<char>)
    ensures
        list.push(added).contains(key) <==> list.contains(key) || key == added,
{
    let more = list.push(added);
    if list.contains(key) {
        let i = choose|i: int| 0 <= i < list.len() && list[i] == key;
        assert(more[i] == key);
    }
    if key == added {
        assert(more[list.len() as int] == key);
    }
    if more.contains(key) && key != added {
        let i = choose|i: int| 0 <= i < more.len() && more[i] == key;
        assert(list[i] == key);
    }
}

proof fn lemma_add_contains(a: Seq<Seq<char>>, b: Seq<Seq<char>>, key: Seq<char>)
    ensures
        (a + b).contains(key) <==> a.contains(key) || b.contains(key),
{
    let all = a + b;
    if a.contains(key) {
        let i = choose|i: int| 0 <= i < a.len() && a[i] == key;
        assert(all[i] == key);
    }
    if b.contains(key) {
        let i = choose|i: int| 0 <= i < b.len() && b[i] == key;
        assert(all[a.len() + i] == key);
    }
    if all.contains(key) {
        let i = choose|i: int| 0 <= i < all.len() && all[i] == key;
        if i < a.len() {
            assert(a[i] == key);
        } else {
            assert(b[i - a.len()] == key);
        }
    }
}

/// The keys of a row of the whole are its ports.
proof fn lemma_joined_keys(parts: Seq<PartModel>, choice: Seq<usize>, shared: Seq<SharedModel>, k: nat)
    requires
        k <= parts.len(),
    ensures
        forall|key: Seq<char>| #[trigger]
            joined_states(parts, choice, shared, k).contains_key(key) <==> outer_ports(parts, shared, k).contains(key),
    decreases k,
{
    if k > 0 {
        lemma_joined_keys(parts, choice, shared, (k - 1) as nat);
        let part = parts[k - 1];
        lemma_part_keys(
            joined_states(parts, choice, shared, (k - 1) as nat),
            part,
            part_row(part, choice[k - 1]),
            shared,
            part.spec.wires.len(),
        );
        assert forall|key: Seq<char>| #[trigger]
            joined_states(parts, choice, shared, k).contains_key(key) <==> outer_ports(parts, shared, k).contains(
                key,
            ) by {
            lemma_add_contains(
                outer_ports(parts, shared, (k - 1) as nat),
                outer_wires(part, shared, part.spec.wires.len()),
                key,
            );
        }
    } else {
        assert(outer_ports(parts, shared, 0) =~= Seq::<Seq<char>>::empty());
    }
}

proof fn lemma_states_transitive(keys: Seq<Seq<char>>, a: States, b: States, c: States)
    requires
        states_less(keys, a, b),
        states_less(keys, b, c),
    ensures
        states_less(keys, a, c),
{
    let i = choose|i: int| #[trigger] differs_at(keys, a, b, i);
    let j = choose|j: int| #[trigger] differs_at(keys, b, c, j);
    let m = if i < j { i } else { j };
    if i == j {
        text::lemma_text_less_transitive(a[keys[i]], b[keys[i]], c[keys[i]]);
    } else if i < j {
        assert(b[keys[i]] == c[keys[i]]);
    } else {
        assert(a[keys[j]] == b[keys[j]]);
    }
    assert forall|n: int| 0 <= n < m implies a[#[trigger] keys[n]] == c[keys[n]] by {
        assert(a[keys[n]] == b[keys[n]]);
        assert(b[keys[n]] == c[keys[n]]);
    }
    assert(differs_at(keys, a, c, m));
}

/// How states stand to others.
enum Standing {
    Before,
    Same,
    After,
}

/// Compares the states of the same ports.
fn compare_states(a: &PortAssignment, b: &PortAssignment, keys: Ghost<Seq<Seq<char>>>) -> (standing: Standing)
    requires
        a.wf(),
        b.wf(),
        a.states.key_seq() == keys@,
        b.states.key_seq() == keys@,
    ensures
        match standing {
            Standing::Before => states_less(keys@, a@, b@),
            Standing::Same => a@ == b@,
            Standing::After => states_less(keys@, b@, a@),
        },
{
    proof {
        a.states.lemma_entries();
        b.states.lemma_entries();
    }
    let n: usize = a.states.len();
    let mut i: usize = 0;
    while i < n
        invariant
            i <= n,
            n == keys@.len(),
            a.wf(),
            b.wf(),
            a.states.key_seq() == keys@,
            b.states.key_seq() == keys@,
            a.states.value_seq().len() == n,
            b.states.value_seq().len() == n,
            forall|j: int| 0 <= j < n ==> a@[#[trigger] keys@[j]] == a.states.value_seq()[j]@,
            forall|j: int| 0 <= j < n ==> b@[#[trigger] keys@[j]] == b.states.value_seq()[j]@,
            forall|j: int| 0 <= j < i ==> a@[#[trigger] keys@[j]] == b@[keys@[j]],
        decreases n - i,
    {
        let left: &String = a.states.value_at(i);
        let right: &String = b.states.value_at(i);
        assert(a@[keys@[i as int]] == left@);
        assert(b@[keys@[i as int]] == right@);
        if !same_text(left.as_str(), right.as_str()) {
            if text_before(left.as_str(), right.as_str()) {
                assert(differs_at(keys@, a@, b@, i as int));
                return Standing::Before;
            }
            proof {
                text::lemma_text_less_total(left@, right@);
            }
            assert(differs_at(keys@, b@, a@, i as int));
            return Standing::After;
        }
        i += 1;
    }
    proof {
        assert(a@.dom() =~= a.states@.dom());
        assert(b@.dom() =~= b.states@.dom());
        assert forall|key: Seq<char>| a@.contains_key(key) implies a@[key] == b@[key] by {
            assert(a.states@.contains_key(key));
            let j = choose|j: int| 0 <= j < keys@.len() && keys@[j] == key;
            assert(a@[keys@[j]] == b@[keys@[j]]);
        }
        assert(a@ =~= b@);
    }
    Standing::Same
}

/// The assignments give the same ports states, each other ones, in ascending order.
spec fn is_listing(list: Seq<PortAssignment>, keys: Seq<Seq<char>>) -> bool {
    &&& forall|i: int| 0 <= i < list.len() ==> (#[trigger] list[i]).wf() && list[i].states.key_seq() == keys
    &&& forall|i: int, j: int| #![trigger list[i], list[j]]
        0 <= i < j < list.len() ==> states_less(keys, list[i]@, list[j]@)
}

/// One of the assignments has the states.
spec fn listed(list: Seq<PortAssignment>, states: States) -> bool {
    exists|i: int| 0 <= i < list.len() && (#[trigger] list[i])@ == states
}

/// Adds an assignment, unless it is there.
fn insert_assignment(list: &mut Vec<PortAssignment>, assignment: PortAssignment, keys: Ghost<Seq<Seq<char>>>)
    requires
        is_listing(old(list)@, keys@),
        assignment.wf(),
        assignment.states.key_seq() == keys@,
    ensures
        is_listing(final(list)@, keys@),
        forall|states: States| #[trigger]
            listed(final(list)@, states) <==> listed(old(list)@, states) || states == assignment@,
{
    let ghost before = list@;
    let ghost added = assignment@;
    let mut at: usize = 0;
    while at < list.len()
        invariant
            at <= list@.len(),
            list@ == before,
            before == old(list)@,
            is_listing(before, keys@),
            assignment.wf(),
            assignment.states.key_seq() == keys@,
            added == assignment@,
            forall|i: int| 0 <= i < at ==> states_less(keys@, (#[trigger] before[i])@, added),
        ensures
            at <= list@.len(),
            list@ == before,
            forall|i: int| 0 <= i < at ==> states_less(keys@, (#[trigger] before[i])@, added),
            at < list@.len() ==> states_less(keys@, added, before[at as int]@),
        decreases list.len() - at,
    {
        assert(before[at as int].wf());
        match compare_states(&list[at], &assignment, keys) {
            Standing::Before => {},
            Standing::Same => {
                assert(listed(before, added)) by {
                    assert(before[at as int]@ == added);
                }
                return;
            },
            Standing::After => {
                break;
            },
        }
        at += 1;
    }
    proof {
        lemma_insert_listing(before, assignment, at as int, keys@);
    }
    list.insert(at, assignment);
}

proof fn lemma_insert_listing(before: Seq<PortAssignment>, assignment: PortAssignment, at: int, keys: Seq<Seq<char>>)
    requires
        is_listing(before, keys),
        assignment.wf(),
        assignment.states.key_seq() == keys,
        0 <= at <= before.len(),
        forall|i: int| 0 <= i < at ==> states_less(keys, (#[trigger] before[i])@, assignment@),
        at < before.len() ==> states_less(keys, assignment@, before[at]@),
    ensures
        is_listing(before.insert(at, assignment), keys),
        forall|states: States| #[trigger]
            listed(before.insert(at, assignment), states) <==> listed(before, states) || states == assignment@,
{
    let after = before.insert(at, assignment);
    let added = assignment@;
    assert forall|i: int| 0 <= i < after.len() implies (#[trigger] after[i]).wf() && after[i].states.key_seq()
        == keys by {
        if i < at {
            assert(after[i] == before[i]);
        } else if i > at {
            assert(after[i] == before[i - 1]);
        }
    }
    assert forall|i: int, j: int| #![trigger after[i], after[j]] 0 <= i < j < after.len() implies states_less(
        keys,
        after[i]@,
        after[j]@,
    ) by {
        if i < at && j < at {
            assert(after[i] == before[i] && after[j] == before[j]);
        } else if i < at && j == at {
            assert(after[i] == before[i]);
        } else if i < at {
            assert(after[i] == before[i] && after[j] == before[j - 1]);
        } else if i == at {
            assert(after[j] == before[j - 1]);
            if j - 1 > at {
                assert(states_less(keys, before[at]@, before[j - 1]@));
                lemma_states_transitive(keys, added, before[at]@, before[j - 1]@);
            }
        } else {
            assert(after[i] == before[i - 1] && after[j] == before[j - 1]);
        }
    }
    assert forall|states: States| #[trigger] listed(after, states) <==> listed(before, states) || states == added by {
        if listed(before, states) {
            let i = choose|i: int| 0 <= i < before.len() && (#[trigger] before[i])@ == states;
            if i < at {
                assert(after[i]@ == states);
            } else {
                assert(after[i + 1]@ == states);
            }
        }
        if states == added {
            assert(after[at]@ == states);
        }
        if listed(after, states) && states != added {
            let i = choose|i: int| 0 <= i < after.len() && (#[trigger] after[i])@ == states;
            if i < at {
                assert(before[i]@ == states);
            } else {
                assert(before[i - 1]@ == states);
            }
        }
    }
}

/// Lists what the whole allows by rows that begin with the chosen ones.
fn enumerate_composite_rows(
    pieces: &Vec<&LoadedPiece>,
    shared: &Vec<SharedPort>,
    choice: &mut Vec<usize>,
    allowed: &mut Vec<PortAssignment>,
)
    requires
        pieces_wf(pieces@),
        old(choice)@.len() <= pieces@.len(),
        forall|i: int|
            0 <= i < old(choice)@.len() ==> #[trigger] old(choice)@[i] < parts_of(pieces@)[i].spec.items.len(),
        is_listing(
            old(allowed)@,
            strmap::sorted_list(outer_ports(parts_of(pieces@), shared_models(shared@), pieces@.len())),
        ),
    ensures
        final(choice)@ == old(choice)@,
        is_listing(
            final(allowed)@,
            strmap::sorted_list(outer_ports(parts_of(pieces@), shared_models(shared@), pieces@.len())),
        ),
        forall|states: States| #[trigger]
            listed(final(allowed)@, states) <==> listed(old(allowed)@, states) || allowed_from(
                parts_of(pieces@),
                shared_models(shared@),
                old(choice)@,
                states,
            ),
    decreases pieces@.len() - old(choice)@.len(),
{
    let ghost parts = parts_of(pieces@);
    let ghost models = shared_models(shared@);
    let ghost keys = strmap::sorted_list(outer_ports(parts, models, pieces@.len()));
    let ghost before = allowed@;
    let ghost prefix = choice@;
    if choice.len() == pieces.len() {
        let fits: bool = rows_respect_shared_ports(pieces, choice, shared);
        if fits {
            let assignment: PortAssignment = joined_assignment(pieces, choice, shared);
            proof {
                lemma_joined_keys(parts, prefix, models, parts.len());
                assignment.states.lemma_entries();
                strmap::lemma_sorted_list(outer_ports(parts, models, pieces@.len()));
                assert(strmap::is_sorted_list_of(
                    assignment.states.key_seq(),
                    outer_ports(parts, models, pieces@.len()),
                )) by {
                    let ports = outer_ports(parts, models, pieces@.len());
                    let list = assignment.states.key_seq();
                    assert forall|k: Seq<char>| #[trigger] list.contains(k) <==> ports.contains(k) by {
                        assert(list.to_set().contains(k) <==> assignment.states@.contains_key(k));
                        assert(assignment@.contains_key(k) <==> assignment.states@.contains_key(k));
                    }
                }
            }
            insert_assignment(allowed, assignment, Ghost(keys));
        }
        proof {
            assert forall|states: States| #[trigger]
                listed(allowed@, states) <==> listed(before, states) || allowed_from(parts, models, prefix, states) by {
                if allowed_from(parts, models, prefix, states) {
                    let other = choose|other: Seq<usize>| #[trigger]
                        makes(parts, models, other, states) && begins_with(other, prefix);
                    assert(other =~= prefix);
                }
                if fits && states == joined_states(parts, prefix, models, parts.len()) {
                    assert(makes(parts, models, prefix, states));
                    assert(begins_with(prefix, prefix));
                }
            }
        }
        return;
    }
    let at: usize = choice.len();
    let piece: &LoadedPiece = pieces[at];
    assert(parts[at as int] == piece@);
    let total: usize = piece.spec.relation_items.len();
    assert(total == parts[at as int].spec.items.len());
    let mut r: usize = 0;
    while r < total
        invariant
            r <= total,
            parts == parts_of(pieces@),
            models == shared_models(shared@),
            keys == strmap::sorted_list(outer_ports(parts, models, pieces@.len())),
            pieces_wf(pieces@),
            prefix == old(choice)@,
            before == old(allowed)@,
            choice@ == prefix,
            at == prefix.len(),
            at < pieces@.len(),
            total == parts[at as int].spec.items.len(),
            forall|i: int| 0 <= i < prefix.len() ==> #[trigger] prefix[i] < parts[i].spec.items.len(),
            is_listing(allowed@, keys),
            forall|states: States| #[trigger]
                listed(allowed@, states) <==> listed(before, states) || exists|q: usize|
                    q < r && #[trigger] allowed_from(parts, models, prefix.push(q), states),
        decreases total - r,
    {
        let ghost earlier = allowed@;
        choice.push(r);
        enumerate_composite_rows(pieces, shared, choice, allowed);
        proof {
            assert forall|states: States| #[trigger]
                listed(allowed@, states) <==> listed(before, states) || exists|q: usize|
                    q < r + 1 && #[trigger] allowed_from(parts, models, prefix.push(q), states) by {
                assert(listed(earlier, states) <==> listed(before, states) || exists|q: usize|
                    q < r && #[trigger] allowed_from(parts, models, prefix.push(q), states));
            }
        }
        choice.pop();
        assert(choice@ =~= prefix);
        r += 1;
    }
    proof {
        assert forall|states: States| #[trigger]
            listed(allowed@, states) <==> listed(before, states) || allowed_from(parts, models, prefix, states) by {
            if exists|q: usize| q < r && #[trigger] allowed_from(parts, models, prefix.push(q), states) {
                let q = choose|q: usize| q < r && #[trigger] allowed_from(parts, models, prefix.push(q), states);
                let other = choose|other: Seq<usize>| #[trigger]
                    makes(parts, models, other, states) && begins_with(other, prefix.push(q));
                assert forall|i: int| 0 <= i < prefix.len() implies #[trigger] other[i] == prefix[i] by {
                    assert(prefix.push(q)[i] == prefix[i]);
                }
                assert(begins_with(other, prefix));
            }
            if allowed_from(parts, models, prefix, states) {
                let other = choose|other: Seq<usize>| #[trigger]
                    makes(parts, models, other, states) && begins_with(other, prefix);
                let q = other[at as int];
                assert(begins_with(other, prefix.push(q)));
                assert(allowed_from(parts, models, prefix.push(q), states));
            }
        }
    }
}

pub(crate) proof fn lemma_outer_count(parts: Seq<PartModel>, shared: Seq<SharedModel>, k: nat)
    requires
        k <= parts.len(),
        forall|i: int| 0 <= i < parts.len() ==> (#[trigger] parts[i]).spec.wires.len() <= 4,
    ensures
        outer_ports(parts, shared, k).len() <= 4 * k,
    decreases k,
{
    if k > 0 {
        lemma_outer_count(parts, shared, (k - 1) as nat);
        assert(parts[k - 1].spec.wires.len() <= 4);
        lemma_wire_count(parts[k - 1], shared, parts[k - 1].spec.wires.len());
    }
}

proof fn lemma_wire_count(part: PartModel, shared: Seq<SharedModel>, k: nat)
    ensures
        outer_wires(part, shared, k).len() <= k,
    decreases k,
{
    if k > 0 {
        lemma_wire_count(part, shared, (k - 1) as nat);
    }
}

/// The assignments that are not allowed.
fn complement_assignments(ports: &Vec<String>, allowed: &Vec<PortAssignment>) -> (others: Vec<PortAssignment>)
    requires
        bits::two_to(ports@.len()) <= usize::MAX,
        gadget_verifier::assignments_wf(allowed@),
    ensures
        gadget_verifier::assignments_wf(others@),
        gadget_verifier::assignment_maps(others@) == other_states(
            circuit::texts(ports@),
            gadget_verifier::assignment_maps(allowed@),
            bits::two_to(ports@.len()),
        ),
{
    let ghost names = circuit::texts(ports@);
    let ghost maps = gadget_verifier::assignment_maps(allowed@);
    let total: usize = power_of_two(ports.len());
    let mut others: Vec<PortAssignment> = Vec::new();
    let mut mask: usize = 0;
    assert(gadget_verifier::assignment_maps(others@) =~= Seq::<States>::empty());
    while mask < total
        invariant
            mask <= total,
            names == circuit::texts(ports@),
            maps == gadget_verifier::assignment_maps(allowed@),
            gadget_verifier::assignments_wf(allowed@),
            gadget_verifier::assignments_wf(others@),
            gadget_verifier::assignment_maps(others@) == other_states(names, maps, mask as nat),
        decreases total - mask,
    {
        let mut assignment: PortAssignment = PortAssignment::new();
        let mut rest: usize = mask;
        let mut i: usize = 0;
        while i < ports.len()
            invariant
                i <= ports@.len(),
                names == circuit::texts(ports@),
                rest == bits::shifted(mask as nat, i as nat),
                assignment.wf(),
                assignment@ == digit_states(names, mask as nat, i as nat),
            decreases ports.len() - i,
        {
            assert(names[i as int] == ports@[i as int]@);
            let state: &str = if rest % 2 == 1 {
                "1"
            } else {
                "0"
            };
            assignment = assignment.with_state(ports[i].as_str(), state);
            rest = rest / 2;
            i += 1;
        }
        if !holds_states(allowed, &assignment) {
            let ghost before = others@;
            others.push(assignment);
            assert(gadget_verifier::assignment_maps(others@) =~= gadget_verifier::assignment_maps(before).push(
                assignment@,
            ));
        }
        mask += 1;
    }
    others
}

/// The relation of a whole.
pub fn composite_relation(pieces: &Vec<&LoadedPiece>, shared: &Vec<SharedPort>) -> (relation: CompositeRelation)
    requires
        pieces_wf(pieces@),
        bits::two_to(outer_ports(parts_of(pieces@), shared_models(shared@), pieces@.len()).len()) <= usize::MAX,
    ensures
        is_composite_relation(relation, parts_of(pieces@), shared_models(shared@)),
{
    let ghost parts = parts_of(pieces@);
    let ghost models = shared_models(shared@);
    let ghost names = outer_ports(parts, models, pieces@.len());
    let ports: Vec<String> = external_ports(pieces, shared);
    let mut allowed: Vec<PortAssignment> = Vec::new();
    let mut choice: Vec<usize> = Vec::new();
    enumerate_composite_rows(pieces, shared, &mut choice, &mut allowed);
    assert(ports@.len() == circuit::texts(ports@).len());
    let forbidden: Vec<PortAssignment> = complement_assignments(&ports, &allowed);
    proof {
        let maps = gadget_verifier::assignment_maps(allowed@);
        assert forall|states: States| #[trigger] maps.contains(states) <==> is_allowed(parts, models, states) by {
            assert(listed(allowed@, states) <==> allowed_from(parts, models, Seq::<usize>::empty(), states));
            if maps.contains(states) {
                let i = choose|i: int| 0 <= i < maps.len() && maps[i] == states;
                assert(allowed@[i]@ == states);
            }
            if listed(allowed@, states) {
                let i = choose|i: int| 0 <= i < allowed@.len() && (#[trigger] allowed@[i])@ == states;
                assert(maps[i] == states);
            }
            if is_allowed(parts, models, states) {
                let other = choose|other: Seq<usize>| #[trigger] makes(parts, models, other, states);
                assert(begins_with(other, Seq::<usize>::empty()));
            }
        }
        assert forall|i: int, j: int| #![trigger maps[i], maps[j]] 0 <= i < j < maps.len() implies states_less(
            strmap::sorted_list(names),
            maps[i],
            maps[j],
        ) by {
            assert(states_less(strmap::sorted_list(names), allowed@[i]@, allowed@[j]@));
        }
    }
    CompositeRelation { external_ports: ports, allowed, forbidden }
}

} // verus!
