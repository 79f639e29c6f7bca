//! What the success of a test means.

use crate::bits;
use crate::composites;
use crate::composites::CompositeRelation;
use crate::contracts;
use crate::contracts::{ContractModel, PrimitiveDischargeReport, WireRow};
use crate::discharge;
use crate::discharge::{InterfaceLemmaReport, Outcome, Trial};
use crate::gadget_verifier;
use crate::gadget_verifier::{AssignmentCheck, GadgetPattern, PortAssignment, RelationCheckReport, VerifierError};
use crate::interface_error::InterfaceError;
use crate::interfaces::InterfaceOrientation;
use crate::library;
use crate::library::SpecModel;
use crate::phases;
use crate::published::{PatternFiles, PublishedPattern};
use crate::relations;
use crate::relations::{PublishedError, PublishedVerificationReport, States};
use crate::truths;
use crate::wholes;
use crate::wholes::InterfacePlacement;
use vstd::prelude::*;

verus! {

/// A gadget has a predecessor in which its ports have some states.
pub open spec fn takes(gadget: &GadgetPattern, states: States) -> bool {
    exists|assignment: PortAssignment|
        assignment.wf() && assignment@ == states && (#[trigger] gadget_verifier::needs_of(gadget, &assignment) matches Ok(
            needs,
        ) && gadget_verifier::allows(gadget, needs))
}

/// A gadget has no predecessor in which its ports have some states.
pub open spec fn refuses(gadget: &GadgetPattern, states: States) -> bool {
    exists|assignment: PortAssignment|
        assignment.wf() && assignment@ == states && (#[trigger] gadget_verifier::needs_of(gadget, &assignment) matches Ok(
            needs,
        ) && !gadget_verifier::allows(gadget, needs))
}

proof fn lemma_checked(
    checks: Seq<AssignmentCheck>,
    gadget: &GadgetPattern,
    assignments: Seq<PortAssignment>,
    answer: bool,
    states: States,
)
    requires
        gadget_verifier::are_checks(checks, gadget, assignments),
        gadget_verifier::answers_are(checks, answer),
        gadget_verifier::assignments_wf(assignments),
        gadget_verifier::assignment_maps(assignments).contains(states),
    ensures
        answer ==> takes(gadget, states),
        !answer ==> refuses(gadget, states),
{
    let maps = gadget_verifier::assignment_maps(assignments);
    let i = choose|i: int| 0 <= i < maps.len() && maps[i] == states;
    let assignment = assignments[i];
    assert(assignment.wf() && assignment@ == states);
    assert(gadget_verifier::is_check(checks[i], gadget, &assignment));
    assert(checks[i].satisfiable == answer);
    assert(gadget_verifier::needs_of(gadget, &assignment) is Ok);
}

/// A relation was confirmed: the gadget takes the allowed states and refuses the others.
proof fn lemma_confirmed(
    report: RelationCheckReport,
    timeout: Option<u64>,
    gadget: &GadgetPattern,
    allowed: Seq<PortAssignment>,
    forbidden: Seq<PortAssignment>,
    states: States,
)
    requires
        gadget_verifier::is_relation_result(
            Ok::<RelationCheckReport, VerifierError>(report),
            timeout,
            gadget,
            allowed,
            forbidden,
        ),
        gadget_verifier::assignments_wf(allowed),
        gadget_verifier::assignments_wf(forbidden),
        report.allowed_assignments_hold,
        report.forbidden_assignments_hold,
    ensures
        gadget_verifier::assignment_maps(allowed).contains(states) ==> takes(gadget, states),
        gadget_verifier::assignment_maps(forbidden).contains(states) ==> refuses(gadget, states),
{
    if gadget_verifier::assignment_maps(allowed).contains(states) {
        lemma_checked(report.allowed_results@, gadget, allowed, true, states);
    }
    if gadget_verifier::assignment_maps(forbidden).contains(states) {
        lemma_checked(report.forbidden_results@, gadget, forbidden, false, states);
    }
}

/// Where the test of a pattern succeeds, its wires can have the values of a row together if and only
/// if the row is one of its relation; and the pattern has the size and the phases that are stated.
pub proof fn law_success_confirms_relation(
    timeout: Option<u64>,
    report: PublishedVerificationReport,
    pattern: &PublishedPattern,
    gadget: &GadgetPattern,
    spec: SpecModel,
    row: Seq<u8>,
)
    requires
        library::regular(spec),
        relations::is_verification_result(
            timeout,
            Ok::<PublishedVerificationReport, PublishedError>(report),
            pattern,
            gadget,
            spec,
        ),
        report.succeeds(),
        phases::is_row(row, spec.wires.len()),
    ensures
        ({
            let states = relations::item_states(spec.wires, row, spec.wires.len());
            &&& spec.items.contains(row) ==> takes(gadget, states)
            &&& !spec.items.contains(row) ==> refuses(gadget, states)
            &&& spec.size matches Some(size) ==> pattern.width == size.0 && pattern.height == size.1
            &&& spec.align matches Some(align) ==> crate::published::alignment_of(pattern) == align
        }),
{
    let states = relations::item_states(spec.wires, row, spec.wires.len());
    let outcome = Ok::<RelationCheckReport, VerifierError>(report.relation_report);
    let (allowed, forbidden) = choose|allowed: Seq<PortAssignment>, forbidden: Seq<PortAssignment>|
        gadget_verifier::assignments_wf(allowed) && gadget_verifier::assignments_wf(forbidden)
            && gadget_verifier::assignment_maps(allowed) == relations::allowed_states(spec)
            && gadget_verifier::assignment_maps(forbidden) == relations::forbidden_states(
            spec.wires,
            relations::allowed_states(spec),
            bits::two_to(spec.wires.len()),
        ) && #[trigger] gadget_verifier::is_relation_result(outcome, timeout, gadget, allowed, forbidden);
    truths::law_rows_are_allowed_or_forbidden(spec, row);
    lemma_confirmed(report.relation_report, timeout, gadget, allowed, forbidden, states);
}

/// The pieces of a trial, at one of its places, make a whole that does what the trial asks: it takes
/// the states that its parts allow together, and refuses the others.
pub open spec fn is_confirmed(trial: Trial, gadget: GadgetPattern, placement: InterfacePlacement, k: int) -> bool {
    &&& 0 <= k < trial.candidates.len()
    &&& discharge::is_place(placement, trial.pieces, trial.fixed, trial.candidates[k])
    &&& wholes::is_whole_result(
        Ok::<GadgetPattern, InterfaceError>(gadget),
        trial.name,
        trial.pieces,
        placement,
        trial.shared,
    )
    &&& forall|states: States| #[trigger]
        composites::is_allowed(composites::parts_of(trial.pieces), trial.shared, states) ==> takes(&gadget, states)
    &&& forall|states: States| #[trigger]
        gives_values(trial, states) && !composites::is_allowed(
            composites::parts_of(trial.pieces),
            trial.shared,
            states,
        ) ==> refuses(&gadget, states)
}

/// States give each open port of a trial's whole one of two values, and no other port any.
pub open spec fn gives_values(trial: Trial, states: States) -> bool {
    let parts = composites::parts_of(trial.pieces);
    &&& forall|key: Seq<char>| #[trigger]
        states.contains_key(key) <==> composites::outer_ports(parts, trial.shared, parts.len()).contains(key)
    &&& forall|key: Seq<char>| #[trigger] states.contains_key(key) ==> states[key] == "0"@ || states[key] == "1"@
}

/// Where the test of a family succeeds, its pieces make, at one of the places that were to be tried, a
/// whole that takes exactly the states which its parts allow together.
pub proof fn law_success_confirms_family(
    report: InterfaceLemmaReport,
    orientation: InterfaceOrientation,
    label: Seq<char>,
    count: usize,
    trial: Trial,
)
    requires
        discharge::is_family_report(report, orientation, label, count, trial),
        report.succeeds(),
    ensures
        exists|gadget: GadgetPattern, placement: InterfacePlacement, k: int| #[trigger]
            is_confirmed(trial, gadget, placement, k),
{
    let (relation, outcomes) = choose|relation: CompositeRelation, outcomes: Seq<Outcome>|
        composites::is_composite_relation(relation, composites::parts_of(trial.pieces), trial.shared)
            && crate::circuit::texts(report.external_ports@) == crate::circuit::texts(relation.external_ports@)
            && report.expected_allowed_rows == relation.allowed@.len() && #[trigger] discharge::is_search(
            report,
            trial,
            relation,
            outcomes,
        );
    let n = outcomes.len();
    let k = n - 1;
    assert(n > 0 && discharge::is_good(outcomes[k]));
    let outcome = outcomes[k];
    let checked = outcome->Ok_0;
    assert(discharge::is_candidate_outcome(
        trial.timeout,
        outcome,
        trial.name,
        trial.pieces,
        trial.fixed,
        trial.candidates[k],
        trial.shared,
        relation,
    ));
    let placement = choose|placement: InterfacePlacement| #[trigger]
        discharge::is_place(placement, trial.pieces, trial.fixed, trial.candidates[k]) && discharge::is_outcome(
            trial.timeout,
            outcome,
            trial.name,
            trial.pieces,
            placement,
            trial.shared,
            relation,
        );
    let whole = choose|whole: Result<GadgetPattern, InterfaceError>| #[trigger]
        wholes::is_whole_result(whole, trial.name, trial.pieces, placement, trial.shared) && discharge::follows(
            trial.timeout,
            outcome,
            whole,
            relation,
        );
    let gadget = whole->Ok_0;
    assert(whole == Ok::<GadgetPattern, InterfaceError>(gadget));
    let allowed = gadget_verifier::assignment_maps(relation.allowed@);
    assert forall|states: States| #[trigger]
        composites::is_allowed(composites::parts_of(trial.pieces), trial.shared, states) implies takes(
        &gadget,
        states,
    ) by {
        assert(allowed.contains(states));
        lemma_confirmed(checked, trial.timeout, &gadget, relation.allowed@, relation.forbidden@, states);
    }
    let parts = composites::parts_of(trial.pieces);
    assert forall|states: States| #[trigger]
        gives_values(trial, states) && !composites::is_allowed(parts, trial.shared, states) implies refuses(
        &gadget,
        states,
    ) by {
        assert(!allowed.contains(states));
        assert(crate::circuit::texts(relation.external_ports@) == composites::outer_ports(
            parts,
            trial.shared,
            parts.len(),
        ));
        truths::law_whole_allows_or_forbids(relation, parts, trial.shared, states);
        lemma_confirmed(checked, trial.timeout, &gadget, relation.allowed@, relation.forbidden@, states);
    }
    assert(is_confirmed(trial, gadget, placement, k));
}

/// Some item of a relation gives the wires the values of a row.
pub open spec fn is_published(spec: SpecModel, row: WireRow) -> bool {
    exists|i: int| #![trigger spec.items[i]]
        0 <= i < spec.items.len() && contracts::item_row(spec.wires, spec.items[i], spec.wires.len()) == row
}

/// Some values at the ports of a contract are allowed by it and give the wires the values of a row.
pub open spec fn is_promised(contract: ContractModel, row: WireRow) -> bool {
    exists|mask: nat|
        mask < bits::two_to(contract.bindings.len()) && #[trigger] contracts::allows_row(contract, mask, row)
}

/// A contract matches the relation of its pattern if and only if the two allow the same rows: where
/// one of them allows a row that the other does not, it does not match.
pub proof fn law_matching_contracts_agree(contract: ContractModel)
    requires
        contracts::validation(contract) is Ok,
    ensures
        contracts::validation(contract)->Ok_0.relation_matches <==> forall|row: WireRow|
            #[trigger] is_published(library::spec_named(contract.spec_name)->Some_0, row) <==> is_promised(contract, row),
{
    let spec = library::spec_named(contract.spec_name)->Some_0;
    let published = contracts::published_rows(spec, spec.items.len());
    let promised = contracts::contract_rows(contract, bits::two_to(contract.bindings.len()));
    assert forall|row: WireRow| #[trigger] published.contains(row) == is_published(spec, row) by {}
    assert forall|row: WireRow| #[trigger] promised.contains(row) == is_promised(contract, row) by {}
    if contracts::validation(contract)->Ok_0.relation_matches {
        assert(published == promised);
        assert forall|row: WireRow| #[trigger] is_published(spec, row) <==> is_promised(contract, row) by {
            assert(published.contains(row) == promised.contains(row));
        }
    }
    if forall|row: WireRow| #[trigger] is_published(spec, row) <==> is_promised(contract, row) {
        assert forall|row: WireRow| published.contains(row) == promised.contains(row) by {
            assert(is_published(spec, row) <==> is_promised(contract, row));
        }
        assert(published =~= promised);
    }
}

/// The pattern of an entry, as it stands in the files, does what the entry says: its wires can have
/// the values of a row together if and only if the row is one of its relation.
pub open spec fn does_what_it_says(files: &PatternFiles, spec: SpecModel, gadget: GadgetPattern) -> bool {
    &&& exists|pattern: PublishedPattern|
        crate::published::pattern_in_files(files, spec.path) == Ok::<Seq<Seq<u8>>, crate::published::PatternFailure>(
            pattern@,
        ) && #[trigger] crate::published::is_gadget_of(&gadget, &pattern, spec.name)
    &&& forall|row: Seq<u8>| #[trigger]
        phases::is_row(row, spec.wires.len()) ==> (if spec.items.contains(row) {
            takes(&gadget, relations::item_states(spec.wires, row, spec.wires.len()))
        } else {
            refuses(&gadget, relations::item_states(spec.wires, row, spec.wires.len()))
        })
}

/// Where a contract is discharged with success, it matches the relation of its pattern, and the
/// pattern in the files does what the library says of it.
pub proof fn law_success_confirms_contract(
    timeout: Option<u64>,
    report: PrimitiveDischargeReport,
    contract: ContractModel,
    files: &PatternFiles,
)
    requires
        contracts::is_discharge(timeout, report, contract, files),
        report.succeeds(),
    ensures
        library::spec_named(contract.spec_name) is Some,
        forall|row: WireRow| #[trigger]
            is_published(library::spec_named(contract.spec_name)->Some_0, row) <==> is_promised(contract, row),
        exists|gadget: GadgetPattern| #[trigger]
            does_what_it_says(files, library::spec_named(contract.spec_name)->Some_0, gadget),
{
    let spec = library::spec_named(contract.spec_name)->Some_0;
    library::lemma_spec_named(contract.spec_name);
    law_matching_contracts_agree(contract);
    let result = choose|result: Result<PublishedVerificationReport, PublishedError>| #[trigger]
        relations::is_spec_result(timeout, files, spec, result) && contracts::carries_test(report, result);
    let tested = result->Ok_0;
    let rows = crate::published::pattern_in_files(files, spec.path)->Ok_0;
    let (pattern, gadget) = choose|pattern: PublishedPattern, gadget: GadgetPattern|
        pattern.wf() && pattern@ == rows && #[trigger] crate::published::is_gadget_of(&gadget, &pattern, spec.name)
            && relations::is_verification_result(timeout, result, &pattern, &gadget, spec);
    assert forall|row: Seq<u8>| #[trigger] phases::is_row(row, spec.wires.len()) implies (if spec.items.contains(row) {
        takes(&gadget, relations::item_states(spec.wires, row, spec.wires.len()))
    } else {
        refuses(&gadget, relations::item_states(spec.wires, row, spec.wires.len()))
    }) by {
        law_success_confirms_relation(timeout, tested, &pattern, &gadget, spec, row);
    }
    assert(does_what_it_says(files, spec, gadget));
}

} // verus!
