//! What gadgets promise at their ports, checked against the published relations.

use crate::bits;
use crate::circuit;
use crate::compiler::{
    CompiledConstruction, ConstructionModel, Endpoint, EndpointModel, InstanceId, InstanceModel, MacroInstance,
    MacroKind, MacroModel, Net, NetModel, PortRef,
};
use crate::library::{published_connector_specs, published_spec_named, Alignment, PublishedSpec, SpecModel};
use crate::gadget_verifier::{ChargingCheck, GadgetVerifier, GadgetVerifierConfig};
use crate::interfaces::family_matches_filter;
use crate::published::PatternFiles;
use crate::relations::{verify_published_spec, PublishedError, PublishedVerificationReport};
use crate::settings::SolverBackend;
use crate::text::{chars_of, push_bool, push_i64, push_usize, quoted, same_text};
use crate::strmap::StrMap;
use crate::compiler;
use crate::interfaces;
use crate::library;
use crate::relations;
use crate::seqs;
use crate::strmap;
use crate::text;
use vstd::prelude::*;

verus! {

/// Whether a gadget reads a port or drives it.
#[derive(Debug, Clone, Copy, PartialEq, Eq, PartialOrd, Ord, Hash, Structural)]
pub enum ContractPortRole {
    Input,
    Output,
}

/// A port of an instance, and the wire of the pattern that realises it.
#[derive(Debug, Clone, Copy, PartialEq, Eq)]
pub struct ContractPortBinding {
    pub macro_port: &'static str,
    pub wire_port: &'static str,
    pub role: ContractPortRole,
}

impl View for ContractPortBinding {
    type V = (Seq<char>, Seq<char>, ContractPortRole);

    open spec fn view(&self) -> (Seq<char>, Seq<char>, ContractPortRole) {
        (self.macro_port@, self.wire_port@, self.role)
    }
}

/// What a gadget makes of the values at its ports.
#[derive(Debug, Clone, Copy, PartialEq, Eq)]
pub enum ContractSemantics {
    /// The output is the input.
    Identity { input: &'static str, output: &'static str },
    /// The output is the negated input.
    Inversion { input: &'static str, output: &'static str },
    /// The output is true where one of the inputs is.
    Or { lhs: &'static str, rhs: &'static str, out: &'static str },
    /// Both outputs are the input.
    Split { input: &'static str, out0: &'static str, out1: &'static str },
    /// Each of two wires hands its value on.
    Crossing {
        horizontal_in: &'static str,
        horizontal_out: &'static str,
        vertical_in: &'static str,
        vertical_out: &'static str,
    },
    /// The input is true.
    RequireTrue { input: &'static str },
}

/// What a gadget makes of the values at its ports, over texts.
pub enum SemanticsModel {
    Identity(Seq<char>, Seq<char>),
    Inversion(Seq<char>, Seq<char>),
    Or(Seq<char>, Seq<char>, Seq<char>),
    Split(Seq<char>, Seq<char>, Seq<char>),
    Crossing(Seq<char>, Seq<char>, Seq<char>, Seq<char>),
    RequireTrue(Seq<char>),
}

impl View for ContractSemantics {
    type V = SemanticsModel;

    open spec fn view(&self) -> SemanticsModel {
        match *self {
            ContractSemantics::Identity { input, output } => SemanticsModel::Identity(input@, output@),
            ContractSemantics::Inversion { input, output } => SemanticsModel::Inversion(input@, output@),
            ContractSemantics::Or { lhs, rhs, out } => SemanticsModel::Or(lhs@, rhs@, out@),
            ContractSemantics::Split { input, out0, out1 } => SemanticsModel::Split(input@, out0@, out1@),
            ContractSemantics::Crossing { horizontal_in, horizontal_out, vertical_in, vertical_out } => SemanticsModel::Crossing(
                horizontal_in@,
                horizontal_out@,
                vertical_in@,
                vertical_out@,
            ),
            ContractSemantics::RequireTrue { input } => SemanticsModel::RequireTrue(input@),
        }
    }
}

/// What a gadget promises.
#[derive(Debug, Clone, PartialEq, Eq)]
pub struct GadgetContract {
    pub label: &'static str,
    pub published_spec_name: &'static str,
    pub bindings: Vec<ContractPortBinding>,
    pub semantics: ContractSemantics,
}

/// What a gadget promises, over texts.
#[verifier::ext_equal]
pub struct ContractModel {
    pub label: Seq<char>,
    pub spec_name: Seq<char>,
    pub bindings: Seq<(Seq<char>, Seq<char>, ContractPortRole)>,
    pub semantics: SemanticsModel,
}

/// Bindings, over texts.
pub open spec fn binding_models(bindings: Seq<ContractPortBinding>) -> Seq<(Seq<char>, Seq<char>, ContractPortRole)> {
    Seq::new(bindings.len(), |i: int| bindings[i]@)
}

impl View for GadgetContract {
    type V = ContractModel;

    open spec fn view(&self) -> ContractModel {
        ContractModel {
            label: self.label@,
            spec_name: self.published_spec_name@,
            bindings: binding_models(self.bindings@),
            semantics: self.semantics@,
        }
    }
}

/// The values that the first `k` ports get from the digits of a number.
pub open spec fn port_values(bindings: Seq<(Seq<char>, Seq<char>, ContractPortRole)>, mask: nat, k: nat) -> Map<
    Seq<char>,
    bool,
>
    decreases k,
{
    if k == 0 {
        Map::empty()
    } else {
        port_values(bindings, mask, (k - 1) as nat).insert(bindings[k - 1].0, bits::mask_bit(mask, (k - 1) as nat))
    }
}

/// The gadget allows the values at its ports.
pub open spec fn semantics_allow(semantics: SemanticsModel, values: Map<Seq<char>, bool>) -> bool {
    match semantics {
        SemanticsModel::Identity(input, output) => values[input] == values[output],
        SemanticsModel::Inversion(input, output) => values[input] != values[output],
        SemanticsModel::Or(lhs, rhs, out) => values[out] == (values[lhs] || values[rhs]),
        SemanticsModel::Split(input, out0, out1) => values[out0] == values[input] && values[out1] == values[input],
        SemanticsModel::Crossing(horizontal_in, horizontal_out, vertical_in, vertical_out) => values[horizontal_in]
            == values[horizontal_out] && values[vertical_in] == values[vertical_out],
        SemanticsModel::RequireTrue(input) => values[input],
    }
}

/// The ports that the semantics speaks of.
pub open spec fn semantics_ports(semantics: SemanticsModel) -> Seq<Seq<char>> {
    match semantics {
        SemanticsModel::Identity(input, output) => seq![input, output],
        SemanticsModel::Inversion(input, output) => seq![input, output],
        SemanticsModel::Or(lhs, rhs, out) => seq![lhs, rhs, out],
        SemanticsModel::Split(input, out0, out1) => seq![input, out0, out1],
        SemanticsModel::Crossing(horizontal_in, horizontal_out, vertical_in, vertical_out) => seq![
            horizontal_in,
            horizontal_out,
            vertical_in,
            vertical_out,
        ],
        SemanticsModel::RequireTrue(input) => seq![input],
    }
}

/// Some port is bound under a name.
pub open spec fn binds(bindings: Seq<(Seq<char>, Seq<char>, ContractPortRole)>, port: Seq<char>) -> bool {
    exists|i: int| 0 <= i < bindings.len() && (#[trigger] bindings[i]).0 == port
}

/// A contract is sound: it binds few ports, and all those of its semantics.
pub open spec fn sound(contract: ContractModel) -> bool {
    &&& contract.bindings.len() <= 4
    &&& forall|i: int|
        0 <= i < semantics_ports(contract.semantics).len() ==> binds(
            contract.bindings,
            #[trigger] semantics_ports(contract.semantics)[i],
        )
}

/// The values on the wires at the four edges of a pattern.
#[derive(Debug, Clone, Copy, PartialEq, Eq, Structural)]
pub struct WireRow {
    pub east: Option<bool>,
    pub north: Option<bool>,
    pub west: Option<bool>,
    pub south: Option<bool>,
}

/// No wire has a value.
pub open spec fn no_values() -> WireRow {
    WireRow { east: None, north: None, west: None, south: None }
}

/// The values, with that of the wire at an edge replaced.
pub open spec fn with_wire(row: WireRow, wire: Seq<char>, value: bool) -> WireRow {
    if wire == "E"@ {
        WireRow { east: Some(value), ..row }
    } else if wire == "N"@ {
        WireRow { north: Some(value), ..row }
    } else if wire == "W"@ {
        WireRow { west: Some(value), ..row }
    } else if wire == "S"@ {
        WireRow { south: Some(value), ..row }
    } else {
        row
    }
}

/// The values that the wires of the first `k` ports have.
pub open spec fn wire_values(
    bindings: Seq<(Seq<char>, Seq<char>, ContractPortRole)>,
    values: Map<Seq<char>, bool>,
    k: nat,
) -> WireRow
    decreases k,
{
    if k == 0 {
        no_values()
    } else {
        with_wire(wire_values(bindings, values, (k - 1) as nat), bindings[k - 1].1, values[bindings[k - 1].0])
    }
}

/// The digits of a number give a contract's ports values that it allows, and its wires
/// these values.
pub open spec fn allows_row(contract: ContractModel, mask: nat, row: WireRow) -> bool {
    let values = port_values(contract.bindings, mask, contract.bindings.len());
    semantics_allow(contract.semantics, values) && wire_values(contract.bindings, values, contract.bindings.len()) == row
}

/// The rows of values that a contract allows, of those that the first `m` numbers give.
pub open spec fn contract_rows(contract: ContractModel, m: nat) -> Set<WireRow> {
    Set::new(|row: WireRow| exists|mask: nat| mask < m && #[trigger] allows_row(contract, mask, row))
}

/// The values that an item gives the first `k` wires.
pub open spec fn item_row(wires: Seq<char>, item: Seq<u8>, k: nat) -> WireRow
    decreases k,
{
    if k == 0 {
        no_values()
    } else {
        with_wire(item_row(wires, item, (k - 1) as nat), seq![wires[k - 1]], item[k - 1] == 1)
    }
}

/// The rows of values that a published relation allows, of those of its first `k` items.
pub open spec fn published_rows(spec: SpecModel, k: nat) -> Set<WireRow> {
    Set::new(
        |row: WireRow|
            exists|i: int| #![trigger spec.items[i]]
                0 <= i < k && item_row(spec.wires, spec.items[i], spec.wires.len()) == row,
    )
}

/// The wires of a contract, in the order of its ports.
pub open spec fn bound_wires(contract: ContractModel) -> Seq<Seq<char>> {
    Seq::new(contract.bindings.len(), |i: int| contract.bindings[i].1)
}

/// The wires of a contract, each once, in ascending order.
pub open spec fn contract_wires(contract: ContractModel) -> Seq<Seq<char>> {
    strmap::sorted_list(bound_wires(contract))
}

/// The wires of a pattern, each once, in ascending order.
pub open spec fn spec_wires(spec: SpecModel) -> Seq<Seq<char>> {
    strmap::sorted_list(relations::char_names(spec.wires))
}

/// The phase of a wire, where the library states one.
pub open spec fn wire_phase(spec: SpecModel, wire: Seq<char>) -> Option<i8> {
    match spec.align {
        None => None,
        Some(align) => if wire == "E"@ {
            align.0
        } else if wire == "N"@ {
            align.1
        } else if wire == "W"@ {
            align.2
        } else if wire == "S"@ {
            align.3
        } else {
            None
        },
    }
}

/// The phases of the wires that realise a contract's ports.
pub open spec fn bound_phases(contract: ContractModel, spec: SpecModel) -> Seq<(Seq<char>, Option<i8>)> {
    Seq::new(
        contract.bindings.len(),
        |i: int| (contract.bindings[i].0, wire_phase(spec, contract.bindings[i].1)),
    )
}

/// How a contract compares with the published relation.
#[derive(Debug, Clone, PartialEq, Eq)]
pub struct ContractValidationReport {
    pub label: &'static str,
    pub published_spec_name: &'static str,
    pub relation_matches: bool,
    pub port_phases: Vec<(String, Option<i8>)>,
    pub allowed_rows: usize,
}

/// How a contract compares with the published relation, over texts.
#[verifier::ext_equal]
pub struct ValidationModel {
    pub label: Seq<char>,
    pub spec_name: Seq<char>,
    pub relation_matches: bool,
    pub port_phases: Seq<(Seq<char>, Option<i8>)>,
    pub allowed_rows: nat,
}

/// Phases of ports, over texts.
pub open spec fn phase_models(phases: Seq<(String, Option<i8>)>) -> Seq<(Seq<char>, Option<i8>)> {
    Seq::new(phases.len(), |i: int| (phases[i].0@, phases[i].1))
}

impl View for ContractValidationReport {
    type V = ValidationModel;

    open spec fn view(&self) -> ValidationModel {
        ValidationModel {
            label: self.label@,
            spec_name: self.published_spec_name@,
            relation_matches: self.relation_matches,
            port_phases: phase_models(self.port_phases@),
            allowed_rows: self.allowed_rows as nat,
        }
    }
}

/// A phase, as it is written.
pub open spec fn phase_text(phase: Option<i8>) -> Seq<char> {
    match phase {
        None => "None"@,
        Some(p) => "Some("@ + text::signed_decimal(p as int) + ")"@,
    }
}

/// Phases of ports, as they are written.
pub open spec fn phase_parts(phases: Seq<(Seq<char>, Option<i8>)>) -> Seq<Seq<char>> {
    Seq::new(phases.len(), |i: int| "("@ + text::debug_text(phases[i].0) + ", "@ + phase_text(phases[i].1) + ")"@)
}

fn push_phase(out: &mut String, phase: Option<i8>)
    ensures
        final(out)@ == old(out)@ + phase_text(phase),
{
    match phase {
        None => {
            out.append("None");
        },
        Some(p) => {
            out.append("Some(");
            push_i64(out, p as i64);
            out.append(")");
            assert(out@ =~= old(out)@ + phase_text(phase));
        },
    }
}

impl ContractValidationReport {
    /// The comparison, as it is written.
    pub fn render_summary(&self) -> (summary: String)
        ensures
            summary@ == self.label@ + " ["@ + self.published_spec_name@ + "]: relation_matches="@ + text::bool_text(
                self.relation_matches,
            ) + " allowed_rows="@ + text::decimal(self.allowed_rows as nat) + " phases=["@ + text::joined(
                phase_parts(phase_models(self.port_phases@)),
                ", "@,
            ) + "]"@,
    {
        let mut out: String = self.label.to_owned();
        out.append(" [");
        out.append(self.published_spec_name);
        out.append("]: relation_matches=");
        push_bool(&mut out, self.relation_matches);
        out.append(" allowed_rows=");
        push_usize(&mut out, self.allowed_rows);
        out.append(" phases=[");
        let ghost start = out@;
        let ghost parts = phase_parts(phase_models(self.port_phases@));
        let mut k: usize = 0;
        assert(out@ =~= start + text::joined(parts.take(0), ", "@));
        while k < self.port_phases.len()
            invariant
                k <= self.port_phases@.len(),
                parts == phase_parts(phase_models(self.port_phases@)),
                out@ == start + text::joined(parts.take(k as int), ", "@),
            decreases self.port_phases.len() - k,
        {
            proof {
                text::lemma_joined_step(parts, ", "@, k as int);
            }
            if k > 0 {
                out.append(", ");
            }
            let ghost before = out@;
            out.append("(");
            out.append(quoted(self.port_phases[k].0.as_str()).as_str());
            out.append(", ");
            push_phase(&mut out, self.port_phases[k].1);
            out.append(")");
            assert(out@ =~= before + parts[k as int]);
            assert(out@ =~= start + text::joined(parts.take(k + 1), ", "@));
            k += 1;
        }
        assert(parts.take(k as int) =~= parts);
        out.append("]");
        out
    }
}

/// Why a contract cannot be compared with a published relation, over texts.
pub enum ValidationFailure {
    MissingSpec(Seq<char>),
    PortMismatch(Seq<char>, Seq<Seq<char>>, Seq<char>, Seq<Seq<char>>),
}

/// How a contract compares with the published relation.
pub open spec fn validation(contract: ContractModel) -> Result<ValidationModel, ValidationFailure> {
    match library::spec_named(contract.spec_name) {
        None => Err(ValidationFailure::MissingSpec(contract.spec_name)),
        Some(spec) => if spec_wires(spec) != contract_wires(contract) {
            Err(
                ValidationFailure::PortMismatch(
                    contract.label,
                    contract_wires(contract),
                    spec.name,
                    spec_wires(spec),
                ),
            )
        } else {
            let expected = contract_rows(contract, bits::two_to(contract.bindings.len()));
            Ok(
                ValidationModel {
                    label: contract.label,
                    spec_name: contract.spec_name,
                    relation_matches: published_rows(spec, spec.items.len()) == expected,
                    port_phases: bound_phases(contract, spec),
                    allowed_rows: expected.len(),
                },
            )
        },
    }
}

/// Why a contract, or a construction, cannot be certified with regard to the library.
#[derive(Debug)]
pub enum ValidationError {
    /// The library has no pattern of that name.
    MissingSpec { name: &'static str },
    /// The contract and the pattern do not have the same wires.
    PortMismatch { label: &'static str, expected: Vec<String>, name: &'static str, exposed: Vec<String> },
}

impl View for ValidationError {
    type V = ValidationFailure;

    open spec fn view(&self) -> ValidationFailure {
        match *self {
            ValidationError::MissingSpec { name } => ValidationFailure::MissingSpec(name@),
            ValidationError::PortMismatch { label, expected, name, exposed } => ValidationFailure::PortMismatch(
                label@,
                circuit::texts(expected@),
                name@,
                circuit::texts(exposed@),
            ),
        }
    }
}

/// A set of texts, as it is written.
pub open spec fn set_text(list: Seq<Seq<char>>) -> Seq<char> {
    "{"@ + text::joined(interfaces::quoted_texts(list), ", "@) + "}"@
}

fn push_set(out: &mut String, list: &Vec<String>)
    ensures
        final(out)@ == old(out)@ + set_text(circuit::texts(list@)),
{
    let ghost parts = interfaces::quoted_texts(circuit::texts(list@));
    out.append("{");
    let ghost start = out@;
    let mut k: usize = 0;
    assert(out@ =~= start + text::joined(parts.take(0), ", "@));
    while k < list.len()
        invariant
            k <= list@.len(),
            parts == interfaces::quoted_texts(circuit::texts(list@)),
            out@ == start + text::joined(parts.take(k as int), ", "@),
        decreases list.len() - k,
    {
        proof {
            text::lemma_joined_step(parts, ", "@, k as int);
        }
        if k > 0 {
            out.append(", ");
        }
        out.append(quoted(list[k].as_str()).as_str());
        assert(out@ =~= start + text::joined(parts.take(k + 1), ", "@));
        k += 1;
    }
    assert(parts.take(k as int) =~= parts);
    out.append("}");
    assert(out@ =~= old(out)@ + set_text(circuit::texts(list@)));
}

/// The message of a failure.
pub open spec fn validation_text(failure: ValidationFailure) -> Seq<char> {
    match failure {
        ValidationFailure::MissingSpec(name) => "Missing published spec '"@ + name + "'"@,
        ValidationFailure::PortMismatch(label, expected, name, exposed) => "Contract '"@ + label
            + "' expects wire ports "@ + set_text(expected) + ", but published spec '"@ + name + "' exposes "@
            + set_text(exposed),
    }
}

impl ValidationError {
    /// The message of the error.
    pub fn to_string(&self) -> (message: String)
        ensures
            message@ == validation_text(self@),
    {
        match self {
            ValidationError::MissingSpec { name } => {
                let mut out: String = "Missing published spec '".to_owned();
                out.append(*name);
                out.append("'");
                out
            },
            ValidationError::PortMismatch { label, expected, name, exposed } => {
                let mut out: String = "Contract '".to_owned();
                out.append(*label);
                out.append("' expects wire ports ");
                push_set(&mut out, expected);
                out.append(", but published spec '");
                out.append(*name);
                out.append("' exposes ");
                push_set(&mut out, exposed);
                out
            },
        }
    }
}

/// The texts of a list, each once, in ascending order.
fn sorted_names(list: &Vec<String>) -> (names: Vec<String>)
    ensures
        circuit::texts(names@) == strmap::sorted_list(circuit::texts(list@)),
{
    let ghost all = circuit::texts(list@);
    let mut map: StrMap<bool> = StrMap::new();
    let mut k: usize = 0;
    while k < list.len()
        invariant
            k <= list@.len(),
            all == circuit::texts(list@),
            map.wf(),
            forall|t: Seq<char>| #[trigger] map@.contains_key(t) <==> all.take(k as int).contains(t),
        decreases list.len() - k,
    {
        let ghost before = map@;
        map.insert(list[k].clone(), true);
        proof {
            assert forall|t: Seq<char>| #[trigger] map@.contains_key(t) <==> all.take(k + 1).contains(t) by {
                seqs::lemma_take_contains(all, k as int, t);
                assert(before.contains_key(t) <==> all.take(k as int).contains(t));
            }
        }
        k += 1;
    }
    proof {
        assert(all.take(k as int) =~= all);
        map.lemma_entries();
        let keys = map.key_seq();
        assert forall|t: Seq<char>| keys.contains(t) <==> all.contains(t) by {
            if keys.contains(t) {
                let i = choose|i: int| 0 <= i < keys.len() && keys[i] == t;
                assert(map@.contains_key(keys[i]));
            }
            assert(map@.contains_key(t) <==> all.contains(t));
        }
        assert(strmap::is_sorted_list_of(keys, all));
        strmap::lemma_sorted_list(all);
        strmap::lemma_sorted_texts_unique(keys, strmap::sorted_list(all));
    }
    let total: usize = map.len();
    let mut names: Vec<String> = Vec::new();
    let mut m: usize = 0;
    while m < total
        invariant
            m <= total,
            total == map.key_seq().len(),
            names@.len() == m,
            forall|i: int| 0 <= i < m ==> (#[trigger] names@[i])@ == map.key_seq()[i],
        decreases total - m,
    {
        names.push(map.key_at(m).clone());
        m += 1;
    }
    assert(circuit::texts(names@) =~= map.key_seq());
    names
}

fn same_lists(a: &Vec<String>, b: &Vec<String>) -> (same: bool)
    ensures
        same == (circuit::texts(a@) == circuit::texts(b@)),
{
    let ghost left = circuit::texts(a@);
    let ghost right = circuit::texts(b@);
    if a.len() != b.len() {
        assert(left.len() != right.len());
        return false;
    }
    let mut i: usize = 0;
    while i < a.len()
        invariant
            i <= a@.len(),
            a@.len() == b@.len(),
            left == circuit::texts(a@),
            right == circuit::texts(b@),
            forall|k: int| 0 <= k < i ==> #[trigger] left[k] == right[k],
        decreases a.len() - i,
    {
        if !same_text(a[i].as_str(), b[i].as_str()) {
            assert(left[i as int] != right[i as int]);
            return false;
        }
        assert(left[i as int] == right[i as int]);
        i += 1;
    }
    assert(left =~= right);
    true
}

fn set_wire(row: WireRow, wire: &str, value: bool) -> (result: WireRow)
    ensures
        result == with_wire(row, wire@, value),
{
    if same_text(wire, "E") {
        WireRow { east: Some(value), ..row }
    } else if same_text(wire, "N") {
        WireRow { north: Some(value), ..row }
    } else if same_text(wire, "W") {
        WireRow { west: Some(value), ..row }
    } else if same_text(wire, "S") {
        WireRow { south: Some(value), ..row }
    } else {
        row
    }
}

/// The value of a port: that of the last binding with its name.
fn port_value(bindings: &Vec<ContractPortBinding>, digits: &Vec<bool>, port: &str, mask: Ghost<nat>) -> (value: bool)
    requires
        digits@.len() == bindings@.len(),
        forall|i: int| 0 <= i < digits@.len() ==> #[trigger] digits@[i] == bits::mask_bit(mask@, i as nat),
        binds(binding_models(bindings@), port@),
    ensures
        port_values(binding_models(bindings@), mask@, bindings@.len()).contains_key(port@),
        value == port_values(binding_models(bindings@), mask@, bindings@.len())[port@],
{
    let ghost models = binding_models(bindings@);
    let mut value: bool = false;
    let mut k: usize = 0;
    while k < bindings.len()
        invariant
            k <= bindings@.len(),
            digits@.len() == bindings@.len(),
            models == binding_models(bindings@),
            forall|i: int| 0 <= i < digits@.len() ==> #[trigger] digits@[i] == bits::mask_bit(mask@, i as nat),
            port_values(models, mask@, k as nat).contains_key(port@) ==> value == port_values(models, mask@, k as nat)[port@],
            forall|i: int| 0 <= i < k && (#[trigger] models[i]).0 == port@ ==> port_values(models, mask@, k as nat).contains_key(port@),
        decreases bindings.len() - k,
    {
        assert(models[k as int] == bindings@[k as int]@);
        if same_text(bindings[k].macro_port, port) {
            value = digits[k];
        }
        k += 1;
    }
    proof {
        let i = choose|i: int| 0 <= i < models.len() && (#[trigger] models[i]).0 == port@;
        assert(models[i].0 == port@);
    }
    value
}

fn digits_of(mask: usize, n: usize) -> (digits: Vec<bool>)
    ensures
        digits@.len() == n,
        forall|i: int| 0 <= i < n ==> #[trigger] digits@[i] == bits::mask_bit(mask as nat, i as nat),
{
    let mut digits: Vec<bool> = Vec::new();
    let mut rest: usize = mask;
    let mut i: usize = 0;
    while i < n
        invariant
            i <= n,
            rest == bits::shifted(mask as nat, i as nat),
            digits@.len() == i,
            forall|k: int| 0 <= k < i ==> #[trigger] digits@[k] == bits::mask_bit(mask as nat, k as nat),
        decreases n - i,
    {
        digits.push(rest % 2 == 1);
        rest = rest / 2;
        i += 1;
    }
    digits
}

impl GadgetContract {
    /// Whether the contract allows the values at its ports.
    fn allows(&self, digits: &Vec<bool>, mask: Ghost<nat>) -> (result: bool)
        requires
            sound(self@),
            digits@.len() == self.bindings@.len(),
            forall|i: int| 0 <= i < digits@.len() ==> #[trigger] digits@[i] == bits::mask_bit(mask@, i as nat),
        ensures
            result == semantics_allow(self@.semantics, port_values(self@.bindings, mask@, self@.bindings.len())),
    {
        let ghost ports = semantics_ports(self@.semantics);
        proof {
            assert forall|i: int| 0 <= i < ports.len() implies binds(self@.bindings, #[trigger] ports[i]) by {}
        }
        match self.semantics {
            ContractSemantics::Identity { input, output } => {
                assert(ports[0] == input@ && ports[1] == output@);
                port_value(&self.bindings, digits, input, mask) == port_value(&self.bindings, digits, output, mask)
            },
            ContractSemantics::Inversion { input, output } => {
                assert(ports[0] == input@ && ports[1] == output@);
                port_value(&self.bindings, digits, input, mask) != port_value(&self.bindings, digits, output, mask)
            },
            ContractSemantics::Or { lhs, rhs, out } => {
                assert(ports[0] == lhs@ && ports[1] == rhs@ && ports[2] == out@);
                let either: bool = port_value(&self.bindings, digits, lhs, mask) || port_value(
                    &self.bindings,
                    digits,
                    rhs,
                    mask,
                );
                port_value(&self.bindings, digits, out, mask) == either
            },
            ContractSemantics::Split { input, out0, out1 } => {
                assert(ports[0] == input@ && ports[1] == out0@ && ports[2] == out1@);
                let value: bool = port_value(&self.bindings, digits, input, mask);
                port_value(&self.bindings, digits, out0, mask) == value && port_value(
                    &self.bindings,
                    digits,
                    out1,
                    mask,
                ) == value
            },
            ContractSemantics::Crossing { horizontal_in, horizontal_out, vertical_in, vertical_out } => {
                assert(ports[0] == horizontal_in@ && ports[1] == horizontal_out@ && ports[2] == vertical_in@
                    && ports[3] == vertical_out@);
                port_value(&self.bindings, digits, horizontal_in, mask) == port_value(
                    &self.bindings,
                    digits,
                    horizontal_out,
                    mask,
                ) && port_value(&self.bindings, digits, vertical_in, mask) == port_value(
                    &self.bindings,
                    digits,
                    vertical_out,
                    mask,
                )
            },
            ContractSemantics::RequireTrue { input } => {
                assert(ports[0] == input@);
                port_value(&self.bindings, digits, input, mask)
            },
        }
    }

    /// The values that the wires have where the ports have the given ones.
    fn wire_row(&self, digits: &Vec<bool>, mask: Ghost<nat>) -> (row: WireRow)
        requires
            digits@.len() == self.bindings@.len(),
            forall|i: int| 0 <= i < digits@.len() ==> #[trigger] digits@[i] == bits::mask_bit(mask@, i as nat),
        ensures
            row == wire_values(
                self@.bindings,
                port_values(self@.bindings, mask@, self@.bindings.len()),
                self@.bindings.len(),
            ),
    {
        let ghost models = self@.bindings;
        let ghost values = port_values(models, mask@, models.len());
        let mut row: WireRow = WireRow { east: None, north: None, west: None, south: None };
        let mut k: usize = 0;
        while k < self.bindings.len()
            invariant
                k <= self.bindings@.len(),
                models == self@.bindings,
                values == port_values(models, mask@, models.len()),
                digits@.len() == self.bindings@.len(),
                forall|i: int| 0 <= i < digits@.len() ==> #[trigger] digits@[i] == bits::mask_bit(mask@, i as nat),
                row == wire_values(models, values, k as nat),
            decreases self.bindings.len() - k,
        {
            assert(models[k as int] == self.bindings@[k as int]@);
            let value: bool = port_value(&self.bindings, digits, self.bindings[k].macro_port, mask);
            row = set_wire(row, self.bindings[k].wire_port, value);
            k += 1;
        }
        row
    }

    /// The rows of values that the contract allows.
    fn expected_wire_relation_rows(&self) -> (rows: Vec<WireRow>)
        requires
            sound(self@),
        ensures
            rows@.no_duplicates(),
            rows@.to_set() == contract_rows(self@, bits::two_to(self@.bindings.len())),
    {
        let ghost model = self@;
        let n: usize = self.bindings.len();
        proof {
            bits::lemma_two_to_grows(n as nat, 4);
            assert(bits::two_to(4) == 16) by {
                reveal_with_fuel(bits::two_to, 5);
            }
        }
        let mut total: usize = 1;
        let mut j: usize = 0;
        while j < n
            invariant
                j <= n <= 4,
                total == bits::two_to(j as nat),
                bits::two_to(4) == 16,
            decreases n - j,
        {
            proof {
                bits::lemma_two_to_grows((j + 1) as nat, 4);
            }
            total = total * 2;
            j += 1;
        }
        let mut rows: Vec<WireRow> = Vec::new();
        let mut mask: usize = 0;
        assert(rows@.to_set() =~= contract_rows(model, 0));
        while mask < total
            invariant
                mask <= total,
                model == self@,
                sound(model),
                n == self.bindings@.len(),
                rows@.no_duplicates(),
                rows@.to_set() == contract_rows(model, mask as nat),
            decreases total - mask,
        {
            let digits: Vec<bool> = digits_of(mask, n);
            let ghost before = rows@;
            let row: WireRow = self.wire_row(&digits, Ghost(mask as nat));
            let allowed: bool = self.allows(&digits, Ghost(mask as nat));
            proof {
                assert forall|r: WireRow| contract_rows(model, (mask + 1) as nat).contains(r) <==> (contract_rows(
                    model,
                    mask as nat,
                ).contains(r) || (allowed && r == row)) by {
                    if contract_rows(model, (mask + 1) as nat).contains(r) {
                        let m = choose|m: nat| m < mask + 1 && #[trigger] allows_row(model, m, r);
                        if m < mask {
                            assert(allows_row(model, m, r));
                        }
                    }
                    if contract_rows(model, mask as nat).contains(r) {
                        let m = choose|m: nat| m < mask && #[trigger] allows_row(model, m, r);
                        assert(allows_row(model, m, r));
                    }
                    if allowed && r == row {
                        assert(allows_row(model, mask as nat, r));
                    }
                }
            }
            if allowed && !holds_row(&rows, row) {
                rows.push(row);
                proof {
                    assert(rows@.to_set() =~= before.to_set().insert(row)) by {
                        lemma_set_push(before, row);
                    }
                }
            }
            assert(rows@.to_set() =~= contract_rows(model, (mask + 1) as nat)) by {
                assert forall|r: WireRow| rows@.to_set().contains(r) == contract_rows(model, (mask + 1) as nat).contains(r) by {
                    assert(before.to_set().contains(r) == contract_rows(model, mask as nat).contains(r));
                }
            }
            mask += 1;
        }
        rows
    }

    /// What the library says of the pattern that realises the gadget.
    fn published_spec(&self) -> (result: Result<PublishedSpec, ValidationError>)
        ensures
            match library::spec_named(self@.spec_name) {
                Some(spec) => result matches Ok(found) && found@ == spec,
                None => result matches Err(error) && error@ == ValidationFailure::MissingSpec(self@.spec_name),
            },
    {
        match published_spec_named(self.published_spec_name) {
            Some(spec) => Ok(spec),
            None => Err(ValidationError::MissingSpec { name: self.published_spec_name }),
        }
    }
}

proof fn lemma_set_push<T>(list: Seq<T>, value: T)
    ensures
        list.push(value).to_set() == list.to_set().insert(value),
{
    let longer = list.push(value);
    assert forall|x: T| longer.to_set().contains(x) == list.to_set().insert(value).contains(x) by {
        if longer.contains(x) && x != value {
            let i = choose|i: int| 0 <= i < longer.len() && longer[i] == x;
            assert(list[i] == x);
        }
        if list.contains(x) {
            let i = choose|i: int| 0 <= i < list.len() && list[i] == x;
            assert(longer[i] == x);
        }
        assert(longer[list.len() as int] == value);
    }
    assert(longer.to_set() =~= list.to_set().insert(value));
}

fn holds_row(rows: &Vec<WireRow>, row: WireRow) -> (found: bool)
    ensures
        found == rows@.contains(row),
{
    let mut k: usize = 0;
    while k < rows.len()
        invariant
            k <= rows@.len(),
            forall|i: int| 0 <= i < k ==> #[trigger] rows@[i] != row,
        decreases rows.len() - k,
    {
        if rows[k] == row {
            return true;
        }
        k += 1;
    }
    false
}

fn covers_rows(rows: &Vec<WireRow>, others: &Vec<WireRow>) -> (result: bool)
    ensures
        result == others@.to_set().subset_of(rows@.to_set()),
{
    let mut k: usize = 0;
    while k < others.len()
        invariant
            k <= others@.len(),
            forall|i: int| 0 <= i < k ==> rows@.contains(#[trigger] others@[i]),
        decreases others.len() - k,
    {
        if !holds_row(rows, others[k]) {
            assert(others@.to_set().contains(others@[k as int]));
            return false;
        }
        k += 1;
    }
    assert forall|r: WireRow| others@.to_set().contains(r) implies rows@.to_set().contains(r) by {
        let i = choose|i: int| 0 <= i < others@.len() && others@[i] == r;
        assert(rows@.contains(others@[i]));
    }
    true
}

/// The rows of values that a published relation allows.
fn relation_rows(spec: &PublishedSpec) -> (rows: Vec<WireRow>)
    requires
        library::regular(spec@),
    ensures
        rows@.to_set() == published_rows(spec@, spec@.items.len()),
{
    let ghost model = spec@;
    let wires: Vec<char> = chars_of(spec.relation_wires);
    let mut rows: Vec<WireRow> = Vec::new();
    let mut k: usize = 0;
    assert(rows@.to_set() =~= published_rows(model, 0));
    while k < spec.relation_items.len()
        invariant
            k <= spec.relation_items@.len(),
            model == spec@,
            library::regular(model),
            wires@ == model.wires,
            rows@.to_set() == published_rows(model, k as nat),
        decreases spec.relation_items.len() - k,
    {
        let item: &Vec<u8> = &spec.relation_items[k];
        assert(model.items[k as int] == item@);
        let mut row: WireRow = WireRow { east: None, north: None, west: None, south: None };
        let mut j: usize = 0;
        while j < wires.len()
            invariant
                j <= wires@.len(),
                wires@.len() == item@.len(),
                row == item_row(wires@, item@, j as nat),
            decreases wires.len() - j,
        {
            let mut name: String = String::new();
            name.push(wires[j]);
            assert(name@ =~= seq![wires@[j as int]]);
            row = set_wire(row, name.as_str(), item[j] == 1);
            j += 1;
        }
        let ghost before = rows@;
        rows.push(row);
        proof {
            lemma_set_push(before, row);
            assert forall|r: WireRow| rows@.to_set().contains(r) == published_rows(model, (k + 1) as nat).contains(r) by {
                assert(before.to_set().contains(r) == published_rows(model, k as nat).contains(r));
                if published_rows(model, (k + 1) as nat).contains(r) && !published_rows(model, k as nat).contains(r) {
                    let i = choose|i: int| #![trigger model.items[i]]
                        0 <= i < k + 1 && item_row(model.wires, model.items[i], model.wires.len()) == r;
                    assert(i == k);
                }
                if published_rows(model, k as nat).contains(r) {
                    let i = choose|i: int| #![trigger model.items[i]]
                        0 <= i < k && item_row(model.wires, model.items[i], model.wires.len()) == r;
                    assert(item_row(model.wires, model.items[i], model.wires.len()) == r);
                }
                if r == row {
                    assert(item_row(model.wires, model.items[k as int], model.wires.len()) == r);
                }
            }
            assert(rows@.to_set() =~= published_rows(model, (k + 1) as nat));
        }
        k += 1;
    }
    rows
}

/// The phase of a wire, where the library states one.
fn phase_for_wire(spec: &PublishedSpec, wire_port: &str) -> (phase: Option<i8>)
    ensures
        phase == wire_phase(spec@, wire_port@),
{
    match spec.align {
        None => None,
        Some(align) => if same_text(wire_port, "E") {
            align.0
        } else if same_text(wire_port, "N") {
            align.1
        } else if same_text(wire_port, "W") {
            align.2
        } else if same_text(wire_port, "S") {
            align.3
        } else {
            None
        },
    }
}

/// Compares a contract with the published relation.
fn validate_contract(contract: &GadgetContract) -> (result: Result<ContractValidationReport, ValidationError>)
    requires
        sound(contract@),
    ensures
        match validation(contract@) {
            Ok(model) => result matches Ok(report) && report@ == model,
            Err(failure) => result matches Err(error) && error@ == failure,
        },
{
    let ghost model = contract@;
    let spec: PublishedSpec = match contract.published_spec() {
        Ok(spec) => spec,
        Err(error) => {
            return Err(error);
        },
    };
    proof {
        library::lemma_spec_named(model.spec_name);
    }
    let wires: Vec<char> = chars_of(spec.relation_wires);
    let mut exposed: Vec<String> = Vec::new();
    let mut i: usize = 0;
    while i < wires.len()
        invariant
            i <= wires@.len(),
            exposed@.len() == i,
            forall|k: int| 0 <= k < i ==> (#[trigger] exposed@[k])@ == seq![wires@[k]],
        decreases wires.len() - i,
    {
        let mut name: String = String::new();
        name.push(wires[i]);
        assert(name@ =~= seq![wires@[i as int]]);
        exposed.push(name);
        i += 1;
    }
    let mut bound: Vec<String> = Vec::new();
    let mut port_phases: Vec<(String, Option<i8>)> = Vec::new();
    let mut k: usize = 0;
    while k < contract.bindings.len()
        invariant
            k <= contract.bindings@.len(),
            model == contract@,
            bound@.len() == k,
            port_phases@.len() == k,
            forall|j: int| 0 <= j < k ==> (#[trigger] bound@[j])@ == model.bindings[j].1,
            forall|j: int|
                0 <= j < k ==> (#[trigger] port_phases@[j]).0@ == model.bindings[j].0 && port_phases@[j].1 == wire_phase(
                    spec@,
                    model.bindings[j].1,
                ),
        decreases contract.bindings.len() - k,
    {
        let binding: ContractPortBinding = contract.bindings[k];
        assert(model.bindings[k as int] == binding@);
        bound.push(binding.wire_port.to_owned());
        port_phases.push((binding.macro_port.to_owned(), phase_for_wire(&spec, binding.wire_port)));
        k += 1;
    }
    assert(circuit::texts(exposed@) =~= relations::char_names(spec@.wires));
    assert(circuit::texts(bound@) =~= bound_wires(model));
    let expected_ports: Vec<String> = sorted_names(&bound);
    let exposed_ports: Vec<String> = sorted_names(&exposed);
    if !same_lists(&exposed_ports, &expected_ports) {
        return Err(
            ValidationError::PortMismatch {
                label: contract.label,
                expected: expected_ports,
                name: spec.name,
                exposed: exposed_ports,
            },
        );
    }
    let allowed_rows: Vec<WireRow> = relation_rows(&spec);
    let expected_rows: Vec<WireRow> = contract.expected_wire_relation_rows();
    let relation_matches: bool = covers_rows(&allowed_rows, &expected_rows) && covers_rows(
        &expected_rows,
        &allowed_rows,
    );
    proof {
        expected_rows@.unique_seq_to_set();
        if relation_matches {
            assert(allowed_rows@.to_set() =~= expected_rows@.to_set());
        }
        assert(phase_models(port_phases@) =~= bound_phases(model, spec@));
    }
    Ok(
        ContractValidationReport {
            label: contract.label,
            published_spec_name: contract.published_spec_name,
            relation_matches,
            port_phases,
            allowed_rows: expected_rows.len(),
        },
    )
}

/// What the gadget that realises an instance promises.
pub open spec fn logical_contract(kind: MacroModel) -> Option<ContractModel> {
    match kind {
        MacroModel::InputPort(_) => None,
        MacroModel::NotGate => Some(
            ContractModel {
                label: "logical_not"@,
                spec_name: "NOT gate tile"@,
                bindings: seq![
                    ("in"@, "W"@, ContractPortRole::Input),
                    ("out"@, "E"@, ContractPortRole::Output),
                ],
                semantics: SemanticsModel::Inversion("in"@, "out"@),
            },
        ),
        MacroModel::OrGate => Some(
            ContractModel {
                label: "logical_or"@,
                spec_name: "OR gate tile"@,
                bindings: seq![
                    ("lhs"@, "N"@, ContractPortRole::Input),
                    ("rhs"@, "S"@, ContractPortRole::Input),
                    ("out"@, "E"@, ContractPortRole::Output),
                ],
                semantics: SemanticsModel::Or("lhs"@, "rhs"@, "out"@),
            },
        ),
        MacroModel::Splitter => Some(
            ContractModel {
                label: "logical_splitter"@,
                spec_name: "splitter tile"@,
                bindings: seq![
                    ("in"@, "S"@, ContractPortRole::Input),
                    ("out0"@, "E"@, ContractPortRole::Output),
                    ("out1"@, "N"@, ContractPortRole::Output),
                ],
                semantics: SemanticsModel::Split("in"@, "out0"@, "out1"@),
            },
        ),
        MacroModel::Enforcer => Some(
            ContractModel {
                label: "logical_enforcer"@,
                spec_name: "enforcer gadget"@,
                bindings: seq![("in"@, "W"@, ContractPortRole::Input)],
                semantics: SemanticsModel::RequireTrue("in"@),
            },
        ),
    }
}

/// The contracts of gates, splitters and enforcers.
pub open spec fn logical_contracts() -> Seq<ContractModel> {
    seq![
        logical_contract(MacroModel::NotGate)->Some_0,
        logical_contract(MacroModel::OrGate)->Some_0,
        logical_contract(MacroModel::Splitter)->Some_0,
        logical_contract(MacroModel::Enforcer)->Some_0,
    ]
}

/// A pattern hands the value of one wire to another.
pub open spec fn identity_contract(
    label: Seq<char>,
    spec_name: Seq<char>,
    input: Seq<char>,
    output: Seq<char>,
) -> ContractModel {
    ContractModel {
        label,
        spec_name,
        bindings: seq![(input, input, ContractPortRole::Input), (output, output, ContractPortRole::Output)],
        semantics: SemanticsModel::Identity(input, output),
    }
}

/// The contracts of the tiles of paths.
pub open spec fn tile_contracts() -> Seq<ContractModel> {
    seq![
        identity_contract("route_horizontal_wire"@, "horizontal wire tile"@, "W"@, "E"@),
        identity_contract("route_vertical_wire"@, "vertical wire tile"@, "N"@, "S"@),
        identity_contract("route_ne_turn"@, "NE turn tile"@, "N"@, "E"@),
        identity_contract("route_nw_turn"@, "NW turn tile"@, "N"@, "W"@),
        identity_contract("route_sw_turn"@, "SW turn tile"@, "S"@, "W"@),
        identity_contract("route_se_turn"@, "SE turn tile"@, "S"@, "E"@),
        ContractModel {
            label: "route_crossing"@,
            spec_name: "crossing tile"@,
            bindings: seq![
                ("W"@, "W"@, ContractPortRole::Input),
                ("E"@, "E"@, ContractPortRole::Output),
                ("N"@, "N"@, ContractPortRole::Input),
                ("S"@, "S"@, ContractPortRole::Output),
            ],
            semantics: SemanticsModel::Crossing("W"@, "E"@, "N"@, "S"@),
        },
        ContractModel {
            label: "route_always_one"@,
            spec_name: "always-1 tile"@,
            bindings: seq![("W"@, "W"@, ContractPortRole::Output)],
            semantics: SemanticsModel::RequireTrue("W"@),
        },
    ]
}

/// The contracts of tiles and connectors.
pub open spec fn routing_contracts() -> Seq<ContractModel> {
    tile_contracts() + Seq::new(
        library::connector_table().len(),
        |i: int|
            identity_contract(
                library::connector_table()[i].name,
                library::connector_table()[i].name,
                "W"@,
                "E"@,
            ),
    )
}

/// Contracts, over texts.
pub open spec fn contract_models(contracts: Seq<GadgetContract>) -> Seq<ContractModel> {
    Seq::new(contracts.len(), |i: int| contracts[i]@)
}

fn bind(macro_port: &'static str, wire_port: &'static str, role: ContractPortRole) -> (binding: ContractPortBinding)
    ensures
        binding@ == (macro_port@, wire_port@, role),
{
    ContractPortBinding { macro_port, wire_port, role }
}

/// What the gadget that realises an instance promises.
pub(crate) fn logical_contract_for_instance(kind: &MacroKind) -> (contract: Option<GadgetContract>)
    ensures
        match contract {
            Some(found) => logical_contract(kind@) == Some(found@) && sound(found@),
            None => logical_contract(kind@) is None,
        },
{
    let mut bindings: Vec<ContractPortBinding> = Vec::new();
    match kind {
        MacroKind::InputPort { .. } => None,
        MacroKind::NotGate => {
            bindings.push(bind("in", "W", ContractPortRole::Input));
            bindings.push(bind("out", "E", ContractPortRole::Output));
            let contract: GadgetContract = GadgetContract {
                label: "logical_not",
                published_spec_name: "NOT gate tile",
                bindings,
                semantics: ContractSemantics::Inversion { input: "in", output: "out" },
            };
            assert(contract@ =~= logical_contract(MacroModel::NotGate)->Some_0);
            assert(contract@.bindings[0].0 == "in"@ && contract@.bindings[1].0 == "out"@);
            Some(contract)
        },
        MacroKind::OrGate => {
            bindings.push(bind("lhs", "N", ContractPortRole::Input));
            bindings.push(bind("rhs", "S", ContractPortRole::Input));
            bindings.push(bind("out", "E", ContractPortRole::Output));
            let contract: GadgetContract = GadgetContract {
                label: "logical_or",
                published_spec_name: "OR gate tile",
                bindings,
                semantics: ContractSemantics::Or { lhs: "lhs", rhs: "rhs", out: "out" },
            };
            assert(contract@ =~= logical_contract(MacroModel::OrGate)->Some_0);
            assert(contract@.bindings[0].0 == "lhs"@ && contract@.bindings[1].0 == "rhs"@
                && contract@.bindings[2].0 == "out"@);
            Some(contract)
        },
        MacroKind::Splitter => {
            bindings.push(bind("in", "S", ContractPortRole::Input));
            bindings.push(bind("out0", "E", ContractPortRole::Output));
            bindings.push(bind("out1", "N", ContractPortRole::Output));
            let contract: GadgetContract = GadgetContract {
                label: "logical_splitter",
                published_spec_name: "splitter tile",
                bindings,
                semantics: ContractSemantics::Split { input: "in", out0: "out0", out1: "out1" },
            };
            assert(contract@ =~= logical_contract(MacroModel::Splitter)->Some_0);
            assert(contract@.bindings[0].0 == "in"@ && contract@.bindings[1].0 == "out0"@
                && contract@.bindings[2].0 == "out1"@);
            Some(contract)
        },
        MacroKind::Enforcer => {
            bindings.push(bind("in", "W", ContractPortRole::Input));
            let contract: GadgetContract = GadgetContract {
                label: "logical_enforcer",
                published_spec_name: "enforcer gadget",
                bindings,
                semantics: ContractSemantics::RequireTrue { input: "in" },
            };
            assert(contract@ =~= logical_contract(MacroModel::Enforcer)->Some_0);
            assert(contract@.bindings[0].0 == "in"@);
            Some(contract)
        },
    }
}

/// All contracts are sound.
pub open spec fn all_sound(contracts: Seq<GadgetContract>) -> bool {
    forall|i: int| 0 <= i < contracts.len() ==> sound((#[trigger] contracts[i])@)
}

/// The contracts of gates, splitters and enforcers.
pub fn logical_gadget_contracts() -> (contracts: Vec<GadgetContract>)
    ensures
        contract_models(contracts@) == logical_contracts(),
        all_sound(contracts@),
{
    let mut contracts: Vec<GadgetContract> = Vec::new();
    if let Some(contract) = logical_contract_for_instance(&MacroKind::NotGate) {
        contracts.push(contract);
    }
    if let Some(contract) = logical_contract_for_instance(&MacroKind::OrGate) {
        contracts.push(contract);
    }
    if let Some(contract) = logical_contract_for_instance(&MacroKind::Splitter) {
        contracts.push(contract);
    }
    if let Some(contract) = logical_contract_for_instance(&MacroKind::Enforcer) {
        contracts.push(contract);
    }
    assert(contract_models(contracts@) =~= logical_contracts());
    contracts
}

fn direct_binding(port_name: &'static str, role: ContractPortRole) -> (binding: ContractPortBinding)
    ensures
        binding@ == (port_name@, port_name@, role),
{
    ContractPortBinding { macro_port: port_name, wire_port: port_name, role }
}

fn direct_identity_contract(
    label: &'static str,
    published_spec_name: &'static str,
    input: &'static str,
    output: &'static str,
) -> (contract: GadgetContract)
    ensures
        contract@ == identity_contract(label@, published_spec_name@, input@, output@),
        sound(contract@),
{
    let mut bindings: Vec<ContractPortBinding> = Vec::new();
    bindings.push(direct_binding(input, ContractPortRole::Input));
    bindings.push(direct_binding(output, ContractPortRole::Output));
    let contract: GadgetContract = GadgetContract {
        label,
        published_spec_name,
        bindings,
        semantics: ContractSemantics::Identity { input, output },
    };
    assert(contract@ =~= identity_contract(label@, published_spec_name@, input@, output@));
    assert(contract@.bindings[0].0 == input@ && contract@.bindings[1].0 == output@);
    contract
}

/// The contracts of tiles and connectors.
pub fn routing_gadget_contracts() -> (contracts: Vec<GadgetContract>)
    ensures
        contract_models(contracts@) == routing_contracts(),
        all_sound(contracts@),
{
    let mut contracts: Vec<GadgetContract> = Vec::new();
    contracts.push(direct_identity_contract("route_horizontal_wire", "horizontal wire tile", "W", "E"));
    contracts.push(direct_identity_contract("route_vertical_wire", "vertical wire tile", "N", "S"));
    contracts.push(direct_identity_contract("route_ne_turn", "NE turn tile", "N", "E"));
    contracts.push(direct_identity_contract("route_nw_turn", "NW turn tile", "N", "W"));
    contracts.push(direct_identity_contract("route_sw_turn", "SW turn tile", "S", "W"));
    contracts.push(direct_identity_contract("route_se_turn", "SE turn tile", "S", "E"));
    let mut crossing: Vec<ContractPortBinding> = Vec::new();
    crossing.push(direct_binding("W", ContractPortRole::Input));
    crossing.push(direct_binding("E", ContractPortRole::Output));
    crossing.push(direct_binding("N", ContractPortRole::Input));
    crossing.push(direct_binding("S", ContractPortRole::Output));
    contracts.push(
        GadgetContract {
            label: "route_crossing",
            published_spec_name: "crossing tile",
            bindings: crossing,
            semantics: ContractSemantics::Crossing {
                horizontal_in: "W",
                horizontal_out: "E",
                vertical_in: "N",
                vertical_out: "S",
            },
        },
    );
    let mut always: Vec<ContractPortBinding> = Vec::new();
    always.push(direct_binding("W", ContractPortRole::Output));
    contracts.push(
        GadgetContract {
            label: "route_always_one",
            published_spec_name: "always-1 tile",
            bindings: always,
            semantics: ContractSemantics::RequireTrue { input: "W" },
        },
    );
    proof {
        let crossed = contracts@[6]@;
        assert(crossed.bindings[0].0 == "W"@ && crossed.bindings[1].0 == "E"@ && crossed.bindings[2].0 == "N"@
            && crossed.bindings[3].0 == "S"@);
        assert(sound(crossed));
        assert(crossed =~= tile_contracts()[6]);
        assert(contracts@[7]@.bindings[0].0 == "W"@);
        assert(sound(contracts@[7]@));
        assert(contracts@[7]@ =~= tile_contracts()[7]);
        assert(contract_models(contracts@) =~= tile_contracts());
    }
    let specs: Vec<PublishedSpec> = published_connector_specs();
    let ghost table = library::connector_table();
    let ghost first = contract_models(contracts@);
    let mut k: usize = 0;
    assert(contract_models(contracts@) =~= routing_contracts().take(8));
    while k < specs.len()
        invariant
            k <= specs@.len(),
            table == library::connector_table(),
            library::spec_models(specs@) == table,
            tile_contracts().len() == 8,
            all_sound(contracts@),
            contract_models(contracts@) == routing_contracts().take(8 + k),
        decreases specs.len() - k,
    {
        assert(table[k as int] == specs@[k as int]@);
        let ghost before = contracts@;
        contracts.push(direct_identity_contract(specs[k].name, specs[k].name, "W", "E"));
        assert(contract_models(contracts@) =~= contract_models(before).push(routing_contracts()[8 + k]));
        assert(routing_contracts().take(8 + k + 1) =~= routing_contracts().take(8 + k).push(routing_contracts()[8 + k]));
        k += 1;
    }
    assert(routing_contracts().take(8 + k) =~= routing_contracts());
    contracts
}

/// How the first `k` contracts compare with the published relations.
pub open spec fn validations(contracts: Seq<ContractModel>, k: nat) -> Result<Seq<ValidationModel>, ValidationFailure>
    decreases k,
{
    if k == 0 {
        Ok(Seq::empty())
    } else {
        match validations(contracts, (k - 1) as nat) {
            Err(failure) => Err(failure),
            Ok(earlier) => match validation(contracts[k - 1]) {
                Err(failure) => Err(failure),
                Ok(report) => Ok(earlier.push(report)),
            },
        }
    }
}

/// Reports, over texts.
pub open spec fn validation_models(reports: Seq<ContractValidationReport>) -> Seq<ValidationModel> {
    Seq::new(reports.len(), |i: int| reports[i]@)
}

/// The reports on contracts, or the first that cannot be compared.
pub open spec fn is_validation_result(
    contracts: Seq<ContractModel>,
    result: Result<Vec<ContractValidationReport>, ValidationError>,
) -> bool {
    match validations(contracts, contracts.len()) {
        Ok(models) => result matches Ok(reports) && validation_models(reports@) == models,
        Err(failure) => result matches Err(error) && error@ == failure,
    }
}

proof fn lemma_validations_fail(contracts: Seq<ContractModel>, j: nat, k: nat)
    requires
        j <= k,
        validations(contracts, j) is Err,
    ensures
        validations(contracts, k) == validations(contracts, j),
    decreases k,
{
    if j < k {
        lemma_validations_fail(contracts, j, (k - 1) as nat);
    }
}

fn validate_all(contracts: &Vec<GadgetContract>) -> (result: Result<Vec<ContractValidationReport>, ValidationError>)
    requires
        all_sound(contracts@),
    ensures
        is_validation_result(contract_models(contracts@), result),
{
    let ghost models = contract_models(contracts@);
    let mut reports: Vec<ContractValidationReport> = Vec::new();
    let mut k: usize = 0;
    assert(validation_models(reports@) =~= Seq::<ValidationModel>::empty());
    while k < contracts.len()
        invariant
            k <= contracts@.len(),
            models == contract_models(contracts@),
            all_sound(contracts@),
            validations(models, k as nat) == Ok::<Seq<ValidationModel>, ValidationFailure>(validation_models(reports@)),
        decreases contracts.len() - k,
    {
        assert(models[k as int] == contracts@[k as int]@);
        match validate_contract(&contracts[k]) {
            Ok(report) => {
                let ghost before = reports@;
                reports.push(report);
                assert(validation_models(reports@) =~= validation_models(before).push(report@));
            },
            Err(error) => {
                proof {
                    lemma_validations_fail(models, (k + 1) as nat, models.len());
                }
                return Err(error);
            },
        }
        k += 1;
    }
    Ok(reports)
}

/// Compares the contracts of gates, splitters and enforcers with the published relations.
pub fn validate_logical_contract_library() -> (result: Result<Vec<ContractValidationReport>, ValidationError>)
    ensures
        is_validation_result(logical_contracts(), result),
{
    validate_all(&logical_gadget_contracts())
}

/// Compares the contracts of tiles and connectors with the published relations.
pub fn validate_routing_contract_library() -> (result: Result<Vec<ContractValidationReport>, ValidationError>)
    ensures
        is_validation_result(routing_contracts(), result),
{
    validate_all(&routing_gadget_contracts())
}

/// A contract that was compared with the published relation, and its pattern that was put
/// to the test.
#[derive(Debug, Clone)]
pub struct PrimitiveDischargeReport {
    pub label: &'static str,
    pub published_spec_name: &'static str,
    pub symbolic_relation_matches: bool,
    pub published_success: bool,
    pub size_matches: bool,
    pub alignment_matches: bool,
    pub allowed_assignments_hold: bool,
    pub forbidden_assignments_hold: bool,
    pub charging_holds: bool,
    pub error: Option<String>,
}

impl PrimitiveDischargeReport {
    /// The contract matches, and the pattern passed its tests.
    pub open spec fn succeeds(&self) -> bool {
        self.symbolic_relation_matches && self.published_success
    }

    /// Whether the contract matches, and the pattern passed its tests.
    pub fn is_success(&self) -> (success: bool)
        ensures
            success == self.succeeds(),
    {
        self.symbolic_relation_matches && self.published_success
    }
}

/// How many of the first `k` reports are successes.
pub open spec fn success_count(reports: Seq<PrimitiveDischargeReport>, k: nat) -> nat
    decreases k,
{
    if k == 0 {
        0
    } else {
        success_count(reports, (k - 1) as nat) + (if reports[k - 1].succeeds() {
            1nat
        } else {
            0
        })
    }
}

fn count_successes(reports: &Vec<PrimitiveDischargeReport>) -> (n: usize)
    ensures
        n == success_count(reports@, reports@.len()),
        n <= reports@.len(),
        n == reports@.len() <==> forall|i: int| 0 <= i < reports@.len() ==> (#[trigger] reports@[i]).succeeds(),
{
    let mut n: usize = 0;
    let mut k: usize = 0;
    while k < reports.len()
        invariant
            k <= reports@.len(),
            n <= k,
            n == success_count(reports@, k as nat),
            n == k <==> forall|i: int| 0 <= i < k ==> (#[trigger] reports@[i]).succeeds(),
        decreases reports.len() - k,
    {
        if reports[k].is_success() {
            n += 1;
        } else {
            assert(!reports@[k as int].succeeds());
        }
        k += 1;
    }
    n
}

/// The contracts of a construction, put to the test.
#[derive(Debug, Clone)]
pub struct BasisDischargeReport {
    pub logical: Vec<PrimitiveDischargeReport>,
    pub routing: Vec<PrimitiveDischargeReport>,
}

impl BasisDischargeReport {
    /// All tests are successes.
    pub open spec fn succeeds(&self) -> bool {
        &&& forall|i: int| 0 <= i < self.logical@.len() ==> (#[trigger] self.logical@[i]).succeeds()
        &&& forall|i: int| 0 <= i < self.routing@.len() ==> (#[trigger] self.routing@[i]).succeeds()
    }

    /// Whether all tests are successes.
    pub fn is_success(&self) -> (success: bool)
        ensures
            success == self.succeeds(),
    {
        let logical: usize = count_successes(&self.logical);
        let routing: usize = count_successes(&self.routing);
        logical == self.logical.len() && routing == self.routing.len()
    }

    /// How many tests are successes.
    pub fn render_summary(&self) -> (summary: String)
        ensures
            summary@ == "sat_discharge_valid="@ + text::bool_text(self.succeeds()) + " logical_verified="@
                + text::decimal(success_count(self.logical@, self.logical@.len())) + "/"@ + text::decimal(
                self.logical@.len(),
            ) + " routing_verified="@ + text::decimal(success_count(self.routing@, self.routing@.len())) + "/"@
                + text::decimal(self.routing@.len()),
    {
        let mut out: String = "sat_discharge_valid=".to_owned();
        push_bool(&mut out, self.is_success());
        out.append(" logical_verified=");
        push_usize(&mut out, count_successes(&self.logical));
        out.append("/");
        push_usize(&mut out, self.logical.len());
        out.append(" routing_verified=");
        push_usize(&mut out, count_successes(&self.routing));
        out.append("/");
        push_usize(&mut out, self.routing.len());
        out
    }
}

/// The report carries what the test of the pattern gave.
pub open spec fn carries_test(
    report: PrimitiveDischargeReport,
    result: Result<PublishedVerificationReport, PublishedError>,
) -> bool {
    match result {
        Ok(tested) => {
            &&& report.published_success == tested.succeeds()
            &&& report.size_matches == tested.size_matches
            &&& report.alignment_matches == tested.alignment_matches
            &&& report.allowed_assignments_hold == tested.relation_report.allowed_assignments_hold
            &&& report.forbidden_assignments_hold == tested.relation_report.forbidden_assignments_hold
            &&& report.charging_holds == forall|i: int|
                0 <= i < tested.charging_reports@.len() ==> (
                #[trigger] tested.charging_reports@[i]).all_outputs_are_named_states
            &&& report.error is None
        },
        Err(error) => {
            &&& !report.published_success
            &&& !report.size_matches
            &&& !report.alignment_matches
            &&& !report.allowed_assignments_hold
            &&& !report.forbidden_assignments_hold
            &&& !report.charging_holds
            &&& report.error matches Some(text) && text@ == error.message()
        },
    }
}

/// The report on a contract and on the test of its pattern.
pub open spec fn is_discharge(
    timeout: Option<u64>,
    report: PrimitiveDischargeReport,
    contract: ContractModel,
    files: &PatternFiles,
) -> bool {
    &&& report.label@ == contract.label
    &&& report.published_spec_name@ == contract.spec_name
    &&& validation(contract) matches Ok(model) && report.symbolic_relation_matches == model.relation_matches
    &&& library::spec_named(contract.spec_name) matches Some(spec) && exists|result: Result<
        PublishedVerificationReport,
        PublishedError,
    >| #[trigger] relations::is_spec_result(timeout, files, spec, result) && carries_test(report, result)
}

/// The reports on contracts, or the first contract that cannot be compared.
pub open spec fn is_discharge_result(
    timeout: Option<u64>,
    contracts: Seq<ContractModel>,
    files: &PatternFiles,
    result: Result<Vec<PrimitiveDischargeReport>, ValidationError>,
) -> bool {
    match validations(contracts, contracts.len()) {
        Err(failure) => result matches Err(error) && error@ == failure,
        Ok(_) => result matches Ok(reports) && reports@.len() == contracts.len() && forall|i: int|
            0 <= i < contracts.len() ==> is_discharge(timeout, #[trigger] reports@[i], contracts[i], files),
    }
}

/// The contracts, among the first `k`, whose label or pattern passes a filter.
pub open spec fn filtered_contracts(contracts: Seq<ContractModel>, filter: Option<Seq<char>>, k: nat) -> Seq<
    ContractModel,
>
    decreases k,
{
    if k == 0 {
        Seq::empty()
    } else {
        let earlier = filtered_contracts(contracts, filter, (k - 1) as nat);
        let contract = contracts[k - 1];
        if interfaces::passes(contract.label, filter) || interfaces::passes(contract.spec_name, filter) {
            earlier.push(contract)
        } else {
            earlier
        }
    }
}

fn charging_holds(reports: &Vec<ChargingCheck>) -> (holds: bool)
    ensures
        holds == forall|i: int|
            0 <= i < reports@.len() ==> (#[trigger] reports@[i]).all_outputs_are_named_states,
{
    let mut k: usize = 0;
    while k < reports.len()
        invariant
            k <= reports@.len(),
            forall|i: int| 0 <= i < k ==> (#[trigger] reports@[i]).all_outputs_are_named_states,
        decreases reports.len() - k,
    {
        if !reports[k].all_outputs_are_named_states {
            return false;
        }
        k += 1;
    }
    true
}

fn discharge_contract(
    tester: &GadgetVerifier,
    files: &PatternFiles,
    contract: &GadgetContract,
) -> (result: Result<PrimitiveDischargeReport, ValidationError>)
    requires
        files.wf(),
        relations::files_encodable(files),
        sound(contract@),
    ensures
        match validation(contract@) {
            Err(failure) => result matches Err(error) && error@ == failure,
            Ok(_) => result matches Ok(report) && is_discharge(tester.configuration().timeout, report, contract@, files),
        },
{
    let validated: ContractValidationReport = match validate_contract(contract) {
        Ok(report) => report,
        Err(error) => {
            return Err(error);
        },
    };
    let spec: PublishedSpec = match contract.published_spec() {
        Ok(spec) => spec,
        Err(error) => {
            return Err(error);
        },
    };
    proof {
        library::lemma_spec_named(contract@.spec_name);
        relations::lemma_regular_countable(spec@);
    }
    let tested: Result<PublishedVerificationReport, PublishedError> = verify_published_spec(tester, files, &spec);
    let ghost outcome = tested;
    let report: PrimitiveDischargeReport = match tested {
        Ok(tested) => PrimitiveDischargeReport {
            label: contract.label,
            published_spec_name: contract.published_spec_name,
            symbolic_relation_matches: validated.relation_matches,
            published_success: tested.is_success(),
            size_matches: tested.size_matches,
            alignment_matches: tested.alignment_matches,
            allowed_assignments_hold: tested.relation_report.allowed_assignments_hold,
            forbidden_assignments_hold: tested.relation_report.forbidden_assignments_hold,
            charging_holds: charging_holds(&tested.charging_reports),
            error: None,
        },
        Err(error) => PrimitiveDischargeReport {
            label: contract.label,
            published_spec_name: contract.published_spec_name,
            symbolic_relation_matches: validated.relation_matches,
            published_success: false,
            size_matches: false,
            alignment_matches: false,
            allowed_assignments_hold: false,
            forbidden_assignments_hold: false,
            charging_holds: false,
            error: Some(error.to_string()),
        },
    };
    assert(relations::is_spec_result(tester.configuration().timeout, files, spec@, outcome));
    assert(carries_test(report, outcome));
    Ok(report)
}

/// Puts contracts that pass a filter to the test.
fn discharge_contracts(
    tester: &GadgetVerifier,
    files: &PatternFiles,
    contracts: &Vec<GadgetContract>,
    filter: Option<&str>,
) -> (result: Result<Vec<PrimitiveDischargeReport>, ValidationError>)
    requires
        files.wf(),
        relations::files_encodable(files),
        all_sound(contracts@),
    ensures
        is_discharge_result(
            tester.configuration().timeout,
            filtered_contracts(contract_models(contracts@), interfaces::filter_text(filter), contracts@.len()),
            files,
            result,
        ),
{
    let ghost models = contract_models(contracts@);
    let ghost wanted = interfaces::filter_text(filter);
    let mut reports: Vec<PrimitiveDischargeReport> = Vec::new();
    let mut k: usize = 0;
    while k < contracts.len()
        invariant
            k <= contracts@.len(),
            files.wf(),
            relations::files_encodable(files),
            all_sound(contracts@),
            models == contract_models(contracts@),
            wanted == interfaces::filter_text(filter),
            ({
                let chosen = filtered_contracts(models, wanted, k as nat);
                &&& validations(chosen, chosen.len()) is Ok
                &&& reports@.len() == chosen.len()
                &&& forall|i: int| 0 <= i < chosen.len() ==> is_discharge(tester.configuration().timeout, #[trigger] reports@[i], chosen[i], files)
            }),
        decreases contracts.len() - k,
    {
        let contract: &GadgetContract = &contracts[k];
        assert(models[k as int] == contract@);
        let ghost chosen = filtered_contracts(models, wanted, k as nat);
        if family_matches_filter(contract.label, filter) || family_matches_filter(contract.published_spec_name, filter) {
            let ghost more = filtered_contracts(models, wanted, (k + 1) as nat);
            proof {
                assert(more == chosen.push(contract@));
                lemma_validations_prefix(more, chosen, chosen.len());
            }
            match discharge_contract(tester, files, contract) {
                Ok(report) => {
                    reports.push(report);
                },
                Err(error) => {
                    proof {
                        lemma_filtered_prefix(models, wanted, (k + 1) as nat, models.len());
                        let all = filtered_contracts(models, wanted, models.len());
                        lemma_validations_prefix(all, more, more.len());
                        lemma_validations_fail(all, more.len(), all.len());
                    }
                    return Err(error);
                },
            }
        }
        k += 1;
    }
    Ok(reports)
}

proof fn lemma_validations_prefix(longer: Seq<ContractModel>, shorter: Seq<ContractModel>, k: nat)
    requires
        k <= shorter.len() <= longer.len(),
        forall|i: int| 0 <= i < shorter.len() ==> longer[i] == #[trigger] shorter[i],
    ensures
        validations(longer, k) == validations(shorter, k),
    decreases k,
{
    if k > 0 {
        lemma_validations_prefix(longer, shorter, (k - 1) as nat);
        assert(longer[k - 1] == shorter[k - 1]);
    }
}

proof fn lemma_filtered_prefix(contracts: Seq<ContractModel>, filter: Option<Seq<char>>, j: nat, k: nat)
    requires
        j <= k <= contracts.len(),
    ensures
        ({
            let shorter = filtered_contracts(contracts, filter, j);
            let longer = filtered_contracts(contracts, filter, k);
            shorter.len() <= longer.len() && forall|i: int| 0 <= i < shorter.len() ==> longer[i] == #[trigger] shorter[i]
        }),
    decreases k,
{
    if j < k {
        lemma_filtered_prefix(contracts, filter, j, (k - 1) as nat);
    }
}

/// Puts the contracts of gates, splitters and enforcers to the test.
pub fn discharge_logical_contract_library(tester: &GadgetVerifier, files: &PatternFiles) -> (result: Result<
    Vec<PrimitiveDischargeReport>,
    ValidationError,
>)
    requires
        files.wf(),
        relations::files_encodable(files),
    ensures
        is_discharge_result(tester.configuration().timeout, filtered_contracts(logical_contracts(), None, logical_contracts().len()), files, result),
{
    discharge_logical_contract_library_filtered(tester, files, None)
}

/// Puts the contracts of tiles and connectors to the test.
pub fn discharge_routing_contract_library(tester: &GadgetVerifier, files: &PatternFiles) -> (result: Result<
    Vec<PrimitiveDischargeReport>,
    ValidationError,
>)
    requires
        files.wf(),
        relations::files_encodable(files),
    ensures
        is_discharge_result(tester.configuration().timeout, filtered_contracts(routing_contracts(), None, routing_contracts().len()), files, result),
{
    discharge_routing_contract_library_filtered(tester, files, None)
}

/// Puts the contracts of gates, splitters and enforcers that pass a filter to the test.
pub fn discharge_logical_contract_library_filtered(
    tester: &GadgetVerifier,
    files: &PatternFiles,
    filter: Option<&str>,
) -> (result: Result<Vec<PrimitiveDischargeReport>, ValidationError>)
    requires
        files.wf(),
        relations::files_encodable(files),
    ensures
        is_discharge_result(
            tester.configuration().timeout,
            filtered_contracts(logical_contracts(), interfaces::filter_text(filter), logical_contracts().len()),
            files,
            result,
        ),
{
    discharge_contracts(tester, files, &logical_gadget_contracts(), filter)
}

/// Puts the contracts of tiles and connectors that pass a filter to the test.
pub fn discharge_routing_contract_library_filtered(
    tester: &GadgetVerifier,
    files: &PatternFiles,
    filter: Option<&str>,
) -> (result: Result<Vec<PrimitiveDischargeReport>, ValidationError>)
    requires
        files.wf(),
        relations::files_encodable(files),
    ensures
        is_discharge_result(
            tester.configuration().timeout,
            filtered_contracts(routing_contracts(), interfaces::filter_text(filter), routing_contracts().len()),
            files,
            result,
        ),
{
    discharge_contracts(tester, files, &routing_gadget_contracts(), filter)
}

/// Puts the contracts that pass a filter to the test.
pub fn discharge_construction_basis(
    tester: &GadgetVerifier,
    files: &PatternFiles,
    discharge_logical: bool,
    discharge_routing: bool,
    filter: Option<&str>,
) -> (result: Result<BasisDischargeReport, ValidationError>)
    requires
        files.wf(),
        relations::files_encodable(files),
    ensures
        ({
            let wanted = interfaces::filter_text(filter);
            let logical = if discharge_logical {
                filtered_contracts(logical_contracts(), wanted, logical_contracts().len())
            } else {
                Seq::empty()
            };
            let routing = if discharge_routing {
                filtered_contracts(routing_contracts(), wanted, routing_contracts().len())
            } else {
                Seq::empty()
            };
            match result {
                Ok(report) => is_discharge_result(tester.configuration().timeout, logical, files, Ok(report.logical)) && is_discharge_result(
                    tester.configuration().timeout,
                    routing,
                    files,
                    Ok(report.routing),
                ),
                Err(error) => is_discharge_result(tester.configuration().timeout, logical, files, Err(error)) || (validations(
                    logical,
                    logical.len(),
                ) is Ok && is_discharge_result(tester.configuration().timeout, routing, files, Err(error))),
            }
        }),
{
    let logical: Vec<PrimitiveDischargeReport> = if discharge_logical {
        match discharge_logical_contract_library_filtered(tester, files, filter) {
            Ok(reports) => reports,
            Err(error) => {
                return Err(error);
            },
        }
    } else {
        Vec::new()
    };
    let routing: Vec<PrimitiveDischargeReport> = if discharge_routing {
        match discharge_routing_contract_library_filtered(tester, files, filter) {
            Ok(reports) => reports,
            Err(error) => {
                return Err(error);
            },
        }
    } else {
        Vec::new()
    };
    Ok(BasisDischargeReport { logical, routing })
}

/// The verifier for contracts. With a time limit, in seconds, each of its searches ends when the
/// limit is reached, if not before; without one, a search always runs to its answer.
pub fn default_contract_verifier(timeout: Option<u64>) -> (tester: GadgetVerifier)
    ensures
        tester.configuration() == (GadgetVerifierConfig {
            backend: SolverBackend::Parkissat,
            num_threads: None,
            enable_preprocessing: true,
            verbosity: 0,
            timeout,
        }),
{
    GadgetVerifier::new(
        GadgetVerifierConfig {
            backend: SolverBackend::Parkissat,
            num_threads: None,
            enable_preprocessing: true,
            verbosity: 0,
            timeout,
        },
    )
}

} // verus!
