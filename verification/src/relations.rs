//! What the library says of its patterns, put to the test.

use crate::gadget_verifier::VerifierFailure;
use crate::gadget_verifier::{ChargingCheck, GadgetPattern, GadgetVerifier, PortAssignment, RelationCheckReport};
use crate::gadget_verifier::{copy_names, VerifierError};
use crate::library;
use crate::library::{PublishedSize, PublishedSpec, SpecModel};
use crate::published::{load_published_gadget, PatternFailure};
use crate::published::{PatternError, PatternFiles, PublishedPattern};
use crate::strmap::StrMap;
use crate::text::{chars_of, push_decimal, same_text};
use crate::bits;
use crate::circuit;
use crate::gadget_verifier;
use crate::published;
use crate::strmap;
use crate::text;
use vstd::prelude::*;

verus! {

/// States of ports.
pub type States = Map<Seq<char>, Seq<char>>;

/// The states that give the first `k` wires the given values.
pub open spec fn item_states(wires: Seq<char>, values: Seq<u8>, k: nat) -> States
    decreases k,
{
    if k == 0 {
        Map::empty()
    } else {
        item_states(wires, values, (k - 1) as nat).insert(seq![wires[k - 1]], text::decimal(values[k - 1] as nat))
    }
}

/// The smaller of two lengths.
pub open spec fn shorter(a: nat, b: nat) -> nat {
    if a <= b {
        a
    } else {
        b
    }
}

/// The states that each item of a relation stands for.
pub open spec fn allowed_states(spec: SpecModel) -> Seq<States> {
    Seq::new(
        spec.items.len(),
        |i: int| item_states(spec.wires, spec.items[i], shorter(spec.wires.len(), spec.items[i].len())),
    )
}

/// The values that a number's binary digits give to wires.
pub open spec fn mask_values(mask: nat, n: nat) -> Seq<u8> {
    Seq::new(
        n,
        |i: int|
            if bits::mask_bit(mask, i as nat) {
                1u8
            } else {
                0u8
            },
    )
}

/// The states that a number's binary digits give to wires.
pub open spec fn mask_states(wires: Seq<char>, mask: nat) -> States {
    item_states(wires, mask_values(mask, wires.len()), wires.len())
}

/// Of the first `m` ways to give the wires values, those that are not allowed.
pub open spec fn forbidden_states(wires: Seq<char>, allowed: Seq<States>, m: nat) -> Seq<States>
    decreases m,
{
    if m == 0 {
        Seq::empty()
    } else {
        let earlier = forbidden_states(wires, allowed, (m - 1) as nat);
        let states = mask_states(wires, (m - 1) as nat);
        if allowed.contains(states) {
            earlier
        } else {
            earlier.push(states)
        }
    }
}

pub(crate) fn one_char(c: char) -> (s: String)
    ensures
        s@ == seq![c],
{
    let mut s: String = String::new();
    s.push(c);
    assert(s@ =~= seq![c]);
    s
}

pub(crate) fn number_text(n: u8) -> (s: String)
    ensures
        s@ == text::decimal(n as nat),
{
    let mut s: String = String::new();
    push_decimal(&mut s, n as u64);
    assert(s@ =~= text::decimal(n as nat));
    s
}

/// The assignment that gives wires the given values.
fn assignment_for(wires: &Vec<char>, values: &Vec<u8>) -> (assignment: PortAssignment)
    ensures
        assignment.wf(),
        assignment@ == item_states(wires@, values@, shorter(wires@.len(), values@.len())),
{
    let mut assignment: PortAssignment = PortAssignment::new();
    let mut i: usize = 0;
    while i < wires.len() && i < values.len()
        invariant
            i <= wires@.len(),
            i <= values@.len(),
            assignment.wf(),
            assignment@ == item_states(wires@, values@, i as nat),
        decreases wires.len() - i,
    {
        assignment = assignment.with_state(one_char(wires[i]).as_str(), number_text(values[i]).as_str());
        i += 1;
    }
    assignment
}

/// The values that a number's binary digits give to wires.
fn values_for_mask(mask: usize, n: usize) -> (values: Vec<u8>)
    ensures
        values@ == mask_values(mask as nat, n as nat),
{
    let mut values: Vec<u8> = Vec::new();
    let mut rest: usize = mask;
    let mut i: usize = 0;
    while i < n
        invariant
            i <= n,
            values@.len() == i,
            rest == bits::shifted(mask as nat, i as nat),
            forall|k: int| 0 <= k < i ==> #[trigger] values@[k] == mask_values(mask as nat, n as nat)[k],
        decreases n - i,
    {
        if rest % 2 == 1 {
            values.push(1);
        } else {
            values.push(0);
        }
        rest = rest / 2;
        i += 1;
    }
    assert(values@ =~= mask_values(mask as nat, n as nat));
    values
}

/// Two to the power of a small number.
pub(crate) fn power_of_two(n: usize) -> (total: usize)
    requires
        bits::two_to(n as nat) <= usize::MAX,
    ensures
        total == bits::two_to(n as nat),
{
    let mut total: usize = 1;
    let mut i: usize = 0;
    while i < n
        invariant
            i <= n,
            total == bits::two_to(i as nat),
            bits::two_to(n as nat) <= usize::MAX,
        decreases n - i,
    {
        proof {
            bits::lemma_two_to_grows((i + 1) as nat, n as nat);
        }
        total = total * 2;
        i += 1;
    }
    total
}

/// Whether two assignments give the same ports the same states.
pub(crate) fn same_states(a: &PortAssignment, b: &PortAssignment) -> (same: bool)
    requires
        a.wf(),
        b.wf(),
    ensures
        same == (a@ == b@),
{
    proof {
        a.states.lemma_entries();
        b.states.lemma_entries();
    }
    if a.states.len() != b.states.len() {
        assert(a@ != b@) by {
            if a@ == b@ {
                assert(a.states@.dom() =~= a@.dom());
                assert(b.states@.dom() =~= b@.dom());
            }
        }
        return false;
    }
    let n: usize = a.states.len();
    let mut i: usize = 0;
    while i < n
        invariant
            i <= n,
            a.wf(),
            b.wf(),
            n == a.states.key_seq().len(),
            n == b.states.key_seq().len(),
            a.states.value_seq().len() == n,
            b.states.value_seq().len() == n,
            forall|k: int|
                0 <= k < i ==> #[trigger] a.states.key_seq()[k] == b.states.key_seq()[k]
                    && a.states.value_seq()[k]@ == b.states.value_seq()[k]@,
        decreases n - i,
    {
        let left: &String = a.states.value_at(i);
        let right: &String = b.states.value_at(i);
        let same_key: bool = same_text(a.states.key_at(i).as_str(), b.states.key_at(i).as_str());
        let same_value: bool = same_text(left.as_str(), right.as_str());
        if !same_key || !same_value {
            proof {
                if a@ == b@ {
                    assert(a.states@.dom() =~= a@.dom());
                    assert(b.states@.dom() =~= b@.dom());
                    a.states.lemma_keys_fixed(&b.states);
                    a.states.lemma_entries();
                    b.states.lemma_entries();
                    let key = a.states.key_seq()[i as int];
                    assert(a@[key] == a.states.value_seq()[i as int]@);
                    assert(b@[key] == b.states.value_seq()[i as int]@);
                }
            }
            return false;
        }
        assert(a.states.key_seq()[i as int] == b.states.key_seq()[i as int]);
        assert(a.states.value_seq()[i as int]@ == b.states.value_seq()[i as int]@);
        i += 1;
    }
    proof {
        a.states.lemma_entries();
        b.states.lemma_entries();
        assert(a.states.key_seq() =~= b.states.key_seq());
        assert(a@.dom() =~= b@.dom());
        assert forall|key: Seq<char>| a@.contains_key(key) implies a@[key] == b@[key] by {
            assert(a.states@.contains_key(key));
            let k = choose|k: int| 0 <= k < n && a.states.key_seq()[k] == key;
            assert(a.states@[a.states.key_seq()[k]] == a.states.value_seq()[k]);
            assert(b.states@[b.states.key_seq()[k]] == b.states.value_seq()[k]);
        }
        assert(a@ =~= b@);
    }
    true
}

/// Whether a list holds an assignment.
pub(crate) fn holds_states(list: &Vec<PortAssignment>, assignment: &PortAssignment) -> (found: bool)
    requires
        gadget_verifier::assignments_wf(list@),
        assignment.wf(),
    ensures
        found == gadget_verifier::assignment_maps(list@).contains(assignment@),
{
    let ghost maps = gadget_verifier::assignment_maps(list@);
    let mut i: usize = 0;
    while i < list.len()
        invariant
            i <= list@.len(),
            maps == gadget_verifier::assignment_maps(list@),
            gadget_verifier::assignments_wf(list@),
            assignment.wf(),
            forall|k: int| 0 <= k < i ==> #[trigger] maps[k] != assignment@,
        decreases list.len() - i,
    {
        assert(list@[i as int].wf());
        assert(maps[i as int] == list@[i as int]@);
        if same_states(&list[i], assignment) {
            return true;
        }
        i += 1;
    }
    false
}

/// The assignments that a pattern should allow, and those that it should forbid.
pub fn relation_assignments(spec: &PublishedSpec) -> (lists: (Vec<PortAssignment>, Vec<PortAssignment>))
    requires
        bits::two_to(spec@.wires.len()) <= usize::MAX,
    ensures
        gadget_verifier::assignments_wf(lists.0@),
        gadget_verifier::assignments_wf(lists.1@),
        gadget_verifier::assignment_maps(lists.0@) == allowed_states(spec@),
        gadget_verifier::assignment_maps(lists.1@) == forbidden_states(
            spec@.wires,
            allowed_states(spec@),
            bits::two_to(spec@.wires.len()),
        ),
{
    let ghost model = spec@;
    let wires: Vec<char> = chars_of(spec.relation_wires);
    let mut allowed: Vec<PortAssignment> = Vec::new();
    let mut i: usize = 0;
    while i < spec.relation_items.len()
        invariant
            i <= spec.relation_items@.len(),
            model == spec@,
            wires@ == model.wires,
            gadget_verifier::assignments_wf(allowed@),
            allowed@.len() == i,
            forall|k: int| 0 <= k < i ==> (#[trigger] allowed@[k])@ == allowed_states(model)[k],
        decreases spec.relation_items.len() - i,
    {
        assert(model.items[i as int] == spec.relation_items@[i as int]@);
        let assignment: PortAssignment = assignment_for(&wires, &spec.relation_items[i]);
        allowed.push(assignment);
        i += 1;
    }
    assert(gadget_verifier::assignment_maps(allowed@) =~= allowed_states(model));
    let mut forbidden: Vec<PortAssignment> = Vec::new();
    let n: usize = wires.len();
    let total: usize = power_of_two(n);
    let mut mask: usize = 0;
    assert(gadget_verifier::assignment_maps(forbidden@) =~= Seq::<States>::empty());
    while mask < total
        invariant
            mask <= total,
            n == wires@.len(),
            gadget_verifier::assignments_wf(allowed@),
            gadget_verifier::assignments_wf(forbidden@),
            gadget_verifier::assignment_maps(allowed@) == allowed_states(model),
            gadget_verifier::assignment_maps(forbidden@) == forbidden_states(wires@, allowed_states(model), mask as nat),
        decreases total - mask,
    {
        let assignment: PortAssignment = assignment_for(&wires, &values_for_mask(mask, n));
        assert(assignment@ == mask_states(wires@, mask as nat));
        if !holds_states(&allowed, &assignment) {
            let ghost before = forbidden@;
            forbidden.push(assignment);
            assert(gadget_verifier::assignment_maps(forbidden@) =~= gadget_verifier::assignment_maps(before).push(assignment@));
        }
        mask += 1;
    }
    (allowed, forbidden)
}

/// The names of single characters.
pub open spec fn char_names(chars: Seq<char>) -> Seq<Seq<char>> {
    Seq::new(chars.len(), |i: int| seq![chars[i]])
}

/// The first `m` ways to give the inputs of a rule values, each with the rule's outputs.
pub open spec fn rule_cases(rule: (Seq<char>, Seq<char>), m: nat) -> Seq<(States, Seq<Seq<char>>)> {
    Seq::new(m, |mask: int| (mask_states(rule.0, mask as nat), char_names(rule.1)))
}

/// All ways to give the inputs of the first `k` rules values.
pub open spec fn charging_cases(rules: Seq<(Seq<char>, Seq<char>)>, k: nat) -> Seq<(States, Seq<Seq<char>>)>
    decreases k,
{
    if k == 0 {
        Seq::empty()
    } else {
        charging_cases(rules, (k - 1) as nat) + rule_cases(rules[k - 1], bits::two_to(rules[k - 1].0.len()))
    }
}

/// Assignments with outputs, over texts.
pub open spec fn case_models(cases: Seq<(PortAssignment, Vec<String>)>) -> Seq<(States, Seq<Seq<char>>)> {
    Seq::new(cases.len(), |i: int| (cases[i].0@, circuit::texts(cases[i].1@)))
}

/// Every assignment is valid.
pub open spec fn cases_wf(cases: Seq<(PortAssignment, Vec<String>)>) -> bool {
    forall|i: int| 0 <= i < cases.len() ==> (#[trigger] cases[i]).0.wf()
}

/// The inputs of every rule are few enough for their values to be counted.
pub open spec fn rules_countable(spec: SpecModel) -> bool {
    forall|i: int| 0 <= i < spec.charging.len() ==> bits::two_to((#[trigger] spec.charging[i]).0.len()) <= usize::MAX
}

/// The names of single characters.
fn names_of(chars: &Vec<char>) -> (names: Vec<String>)
    ensures
        circuit::texts(names@) == char_names(chars@),
{
    let mut names: Vec<String> = Vec::new();
    let mut i: usize = 0;
    while i < chars.len()
        invariant
            i <= chars@.len(),
            names@.len() == i,
            forall|k: int| 0 <= k < i ==> (#[trigger] names@[k])@ == seq![chars@[k]],
        decreases chars.len() - i,
    {
        names.push(one_char(chars[i]));
        i += 1;
    }
    assert(circuit::texts(names@) =~= char_names(chars@));
    names
}

/// All ways to give the inputs of the charging rules values, with the outputs.
pub fn charging_input_assignments(spec: &PublishedSpec) -> (cases: Vec<(PortAssignment, Vec<String>)>)
    requires
        rules_countable(spec@),
    ensures
        cases_wf(cases@),
        case_models(cases@) == charging_cases(spec@.charging, spec@.charging.len()),
{
    let ghost rules = spec@.charging;
    let mut cases: Vec<(PortAssignment, Vec<String>)> = Vec::new();
    let mut r: usize = 0;
    assert(case_models(cases@) =~= Seq::<(States, Seq<Seq<char>>)>::empty());
    while r < spec.charging.len()
        invariant
            r <= spec.charging@.len(),
            rules == spec@.charging,
            rules_countable(spec@),
            cases_wf(cases@),
            case_models(cases@) == charging_cases(rules, r as nat),
        decreases spec.charging.len() - r,
    {
        let ghost rule = rules[r as int];
        assert(rule == (spec.charging@[r as int].0@, spec.charging@[r as int].1@));
        let inputs: Vec<char> = chars_of(spec.charging[r].0);
        let outputs: Vec<char> = chars_of(spec.charging[r].1);
        let names: Vec<String> = names_of(&outputs);
        let n: usize = inputs.len();
        let total: usize = power_of_two(n);
        let ghost start = case_models(cases@);
        let mut mask: usize = 0;
        assert(start + rule_cases(rule, 0) =~= start);
        while mask < total
            invariant
                mask <= total,
                n == inputs@.len(),
                rule == (inputs@, outputs@),
                circuit::texts(names@) == char_names(outputs@),
                cases_wf(cases@),
                case_models(cases@) == start + rule_cases(rule, mask as nat),
            decreases total - mask,
        {
            let assignment: PortAssignment = assignment_for(&inputs, &values_for_mask(mask, n));
            assert(assignment@ == mask_states(inputs@, mask as nat));
            let ghost before = cases@;
            let listed: Vec<String> = copy_names(&names);
            cases.push((assignment, listed));
            proof {
                let added = (assignment@, circuit::texts(listed@));
                assert(case_models(cases@) =~= case_models(before).push(added));
                assert(rule_cases(rule, (mask + 1) as nat) =~= rule_cases(rule, mask as nat).push(added));
                assert(start + rule_cases(rule, (mask + 1) as nat) =~= (start + rule_cases(
                    rule,
                    mask as nat,
                )).push(added));
            }
            mask += 1;
        }
        r += 1;
    }
    cases
}

/// What became of what the library says of a pattern.
#[derive(Debug, Clone)]
pub struct PublishedVerificationReport {
    pub size_matches: bool,
    pub alignment_matches: bool,
    pub relation_report: RelationCheckReport,
    pub charging_reports: Vec<ChargingCheck>,
}

impl PublishedVerificationReport {
    /// All that the library says holds.
    pub open spec fn succeeds(&self) -> bool {
        &&& self.size_matches
        &&& self.alignment_matches
        &&& self.relation_report.allowed_assignments_hold
        &&& self.relation_report.forbidden_assignments_hold
        &&& forall|i: int|
            0 <= i < self.charging_reports@.len() ==> (
            #[trigger] self.charging_reports@[i]).all_outputs_are_named_states
    }

    /// Whether all that the library says holds.
    pub fn is_success(&self) -> (success: bool)
        ensures
            success == self.succeeds(),
    {
        if !self.size_matches || !self.alignment_matches || !self.relation_report.allowed_assignments_hold
            || !self.relation_report.forbidden_assignments_hold {
            return false;
        }
        let mut i: usize = 0;
        while i < self.charging_reports.len()
            invariant
                i <= self.charging_reports@.len(),
                forall|k: int| 0 <= k < i ==> (#[trigger] self.charging_reports@[k]).all_outputs_are_named_states,
            decreases self.charging_reports.len() - i,
        {
            if !self.charging_reports[i].all_outputs_are_named_states {
                return false;
            }
            i += 1;
        }
        true
    }
}

/// The pattern has the size that the library gives.
pub open spec fn size_fits(spec: SpecModel, pattern: &PublishedPattern) -> bool {
    match spec.size {
        Some((w, h)) => pattern.width == w && pattern.height == h,
        None => true,
    }
}

/// The pattern's wires have the phases that the library gives.
pub open spec fn alignment_fits(spec: SpecModel, pattern: &PublishedPattern) -> bool {
    match spec.align {
        Some(align) => published::alignment_of(pattern) == align,
        None => true,
    }
}

/// The relation report is the one for the states that the library lists.
pub open spec fn is_relation_of(
    timeout: Option<u64>,
    result: Result<RelationCheckReport, VerifierError>,
    gadget: &GadgetPattern,
    spec: SpecModel,
) -> bool {
    exists|allowed: Seq<PortAssignment>, forbidden: Seq<PortAssignment>|
        gadget_verifier::assignments_wf(allowed) && gadget_verifier::assignments_wf(forbidden) && gadget_verifier::assignment_maps(allowed) == allowed_states(spec)
            && gadget_verifier::assignment_maps(forbidden) == forbidden_states(
            spec.wires,
            allowed_states(spec),
            bits::two_to(spec.wires.len()),
        ) && #[trigger] gadget_verifier::is_relation_result(result, timeout, gadget, allowed, forbidden)
}

/// A charging report is the one for a way to give a rule's inputs values.
pub open spec fn is_charging_of(
    timeout: Option<u64>,
    result: Result<ChargingCheck, VerifierError>,
    gadget: &GadgetPattern,
    case: (States, Seq<Seq<char>>),
) -> bool {
    exists|assignment: PortAssignment|
        assignment.wf() && assignment@ == case.0 && #[trigger] gadget_verifier::is_charging_result(
            result,
            timeout,
            gadget,
            &assignment,
            case.1,
        )
}

/// Why a pattern cannot be put to the test.
#[derive(Debug)]
pub enum PublishedError {
    /// The pattern cannot be had.
    Pattern { error: PatternError },
    /// The question makes no sense for the gadget, or its time was up.
    Gadget { reason: VerifierError },
}

impl PublishedError {
    /// The message of the error.
    pub open spec fn message(&self) -> Seq<char> {
        match *self {
            PublishedError::Pattern { error } => crate::published::failure_text(error@),
            PublishedError::Gadget { reason } => crate::gadget_verifier::failure_text(reason@),
        }
    }

    /// The message of the error.
    pub fn to_string(&self) -> (message: String)
        ensures
            message@ == self.message(),
    {
        match self {
            PublishedError::Pattern { error } => error.to_string(),
            PublishedError::Gadget { reason } => reason.to_string(),
        }
    }
}

/// The report on a pattern, or the first question that makes no sense for its gadget; or, with
/// a time limit, that a search was stopped.
pub open spec fn is_verification_result(
    timeout: Option<u64>,
    result: Result<PublishedVerificationReport, PublishedError>,
    pattern: &PublishedPattern,
    gadget: &GadgetPattern,
    spec: SpecModel,
) -> bool {
    let cases = charging_cases(spec.charging, spec.charging.len());
    match result {
        Ok(report) => {
            &&& report.size_matches == size_fits(spec, pattern)
            &&& report.alignment_matches == alignment_fits(spec, pattern)
            &&& is_relation_of(timeout, Ok(report.relation_report), gadget, spec)
            &&& report.charging_reports@.len() == cases.len()
            &&& forall|i: int|
                0 <= i < cases.len() ==> is_charging_of(
                    timeout,
                    Ok(#[trigger] report.charging_reports@[i]),
                    gadget,
                    cases[i],
                )
        },
        Err(failure) => failure matches PublishedError::Gadget { reason: error } && (is_relation_of(
            timeout,
            Err(error),
            gadget,
            spec,
        ) || (relation_makes_sense(timeout, gadget, spec) && first_charging_failure(timeout, error, gadget, cases))),
    }
}

/// The questions about the relation make sense for the gadget.
pub open spec fn relation_makes_sense(timeout: Option<u64>, gadget: &GadgetPattern, spec: SpecModel) -> bool {
    exists|report: RelationCheckReport| is_relation_of(timeout, Ok(report), gadget, spec)
}

/// The question about a charging case makes sense for the gadget.
pub open spec fn charging_makes_sense(
    timeout: Option<u64>,
    gadget: &GadgetPattern,
    case: (States, Seq<Seq<char>>),
) -> bool {
    exists|check: ChargingCheck| is_charging_of(timeout, Ok(check), gadget, case)
}

/// The error of the first charging case that makes no sense for the gadget.
pub open spec fn first_charging_failure(
    timeout: Option<u64>,
    error: VerifierError,
    gadget: &GadgetPattern,
    cases: Seq<(States, Seq<Seq<char>>)>,
) -> bool {
    exists|i: int|
        0 <= i < cases.len() && is_charging_of(timeout, Err(error), gadget, #[trigger] cases[i]) && forall|j: int|
            0 <= j < i ==> charging_makes_sense(timeout, gadget, #[trigger] cases[j])
}

/// Puts what the library says of a pattern to the test.
pub fn verify_published_pattern(
    tester: &GadgetVerifier,
    published: &PublishedPattern,
    gadget: &GadgetPattern,
    spec: &PublishedSpec,
) -> (result: Result<PublishedVerificationReport, PublishedError>)
    requires
        published.scannable(),
        gadget.wf(),
        gadget.encodable(),
        bits::two_to(spec@.wires.len()) <= usize::MAX,
        rules_countable(spec@),
    ensures
        is_verification_result(tester.configuration().timeout, result, published, gadget, spec@),
{
    let ghost model = spec@;
    let size_matches: bool = match spec.size {
        Some(size) => published.width == size.0 && published.height == size.1,
        None => true,
    };
    let alignment_matches: bool = match spec.align {
        Some(align) => {
            let own: crate::library::Alignment = published.phase_alignment();
            own.0 == align.0 && own.1 == align.1 && own.2 == align.2 && own.3 == align.3
        },
        None => true,
    };
    let (allowed, forbidden): (Vec<PortAssignment>, Vec<PortAssignment>) = relation_assignments(spec);
    let relation_report: RelationCheckReport = match tester.verify_relation(gadget, &allowed, &forbidden) {
        Ok(report) => report,
        Err(error) => {
            assert(is_relation_of(tester.configuration().timeout, Err(error), gadget, model)) by {
                assert(gadget_verifier::is_relation_result(
                    Err(error),
                    tester.configuration().timeout,
                    gadget,
                    allowed@,
                    forbidden@,
                ));
            }
            return Err(PublishedError::Gadget { reason: error });
        },
    };
    assert(is_relation_of(tester.configuration().timeout, Ok(relation_report), gadget, model)) by {
        assert(gadget_verifier::is_relation_result(
            Ok(relation_report),
            tester.configuration().timeout,
            gadget,
            allowed@,
            forbidden@,
        ));
    }
    let cases: Vec<(PortAssignment, Vec<String>)> = charging_input_assignments(spec);
    let ghost wanted = charging_cases(model.charging, model.charging.len());
    let mut charging_reports: Vec<ChargingCheck> = Vec::new();
    let mut i: usize = 0;
    while i < cases.len()
        invariant
            i <= cases@.len(),
            gadget.wf(),
            gadget.encodable(),
            cases_wf(cases@),
            wanted == case_models(cases@),
            wanted == charging_cases(model.charging, model.charging.len()),
            model == spec@,
            relation_makes_sense(tester.configuration().timeout, gadget, model),
            charging_reports@.len() == i,
            forall|k: int|
                0 <= k < i ==> is_charging_of(tester.configuration().timeout, Ok(#[trigger] charging_reports@[k]), gadget, wanted[k]),
        decreases cases.len() - i,
    {
        assert(wanted[i as int] == (cases@[i as int].0@, circuit::texts(cases@[i as int].1@)));
        assert(cases@[i as int].0.wf());
        match tester.verify_charging_rule(gadget, &cases[i].0, &cases[i].1) {
            Ok(check) => {
                assert(is_charging_of(tester.configuration().timeout, Ok(check), gadget, wanted[i as int])) by {
                    assert(gadget_verifier::is_charging_result(
                        Ok(check),
                        tester.configuration().timeout,
                        gadget,
                        &cases@[i as int].0,
                        wanted[i as int].1,
                    ));
                }
                charging_reports.push(check);
            },
            Err(error) => {
                assert(is_charging_of(tester.configuration().timeout, Err(error), gadget, wanted[i as int])) by {
                    assert(gadget_verifier::is_charging_result(
                        Err(error),
                        tester.configuration().timeout,
                        gadget,
                        &cases@[i as int].0,
                        wanted[i as int].1,
                    ));
                }
                proof {
                    assert forall|j: int| 0 <= j < i implies charging_makes_sense(tester.configuration().timeout, gadget, #[trigger] wanted[j]) by {
                        assert(is_charging_of(tester.configuration().timeout, Ok(charging_reports@[j]), gadget, wanted[j]));
                    }
                    assert(first_charging_failure(tester.configuration().timeout, error, gadget, wanted));
                }
                return Err(PublishedError::Gadget { reason: error });
            },
        }
        i += 1;
    }
    Ok(PublishedVerificationReport { size_matches, alignment_matches, relation_report, charging_reports })
}

/// The result of putting what the library says of a pattern of the files to the test.
pub open spec fn is_spec_result(
    timeout: Option<u64>,
    files: &PatternFiles,
    spec: SpecModel,
    result: Result<PublishedVerificationReport, PublishedError>,
) -> bool {
    match published::pattern_in_files(files, spec.path) {
        Err(failure) => result matches Err(PublishedError::Pattern { error }) && error@ == failure,
        Ok(rows) => match crate::grid::grid_of(published::alive_rows(rows)) {
            Err(reason) => result matches Err(PublishedError::Pattern { error }) && error@
                == PatternFailure::NotAGrid(reason),
            Ok(_) => exists|pattern: PublishedPattern, gadget: GadgetPattern|
                pattern.wf() && pattern@ == rows && #[trigger] published::is_gadget_of(&gadget, &pattern, spec.name)
                    && is_verification_result(timeout, result, &pattern, &gadget, spec),
        },
    }
}

/// The wires and rules of a regular specification are few enough to be counted.
pub proof fn lemma_regular_countable(spec: SpecModel)
    requires
        library::regular(spec),
    ensures
        bits::two_to(spec.wires.len()) <= 16,
        rules_countable(spec),
{
    bits::lemma_two_to_grows(spec.wires.len(), 4);
    reveal_with_fuel(bits::two_to, 6);
    assert forall|i: int| 0 <= i < spec.charging.len() implies bits::two_to(
        (#[trigger] spec.charging[i]).0.len(),
    ) <= usize::MAX by {
        bits::lemma_two_to_grows(spec.charging[i].0.len(), 4);
    }
}

/// Puts what the library says of one of its patterns to the test.
pub fn verify_published_spec(tester: &GadgetVerifier, files: &PatternFiles, spec: &PublishedSpec) -> (result: Result<
    PublishedVerificationReport,
    PublishedError,
>)
    requires
        files.wf(),
        files_encodable(files),
        bits::two_to(spec@.wires.len()) <= usize::MAX,
        rules_countable(spec@),
    ensures
        is_spec_result(tester.configuration().timeout, files, spec@, result),
{
    match load_published_gadget(files, spec) {
        Ok(loaded) => {
            let (published, gadget): (PublishedPattern, GadgetPattern) = loaded;
            assert(published@[0].len() == published.width);
            let result: Result<PublishedVerificationReport, PublishedError> = verify_published_pattern(
                tester,
                &published,
                &gadget,
                spec,
            );
            assert(published::is_gadget_of(&gadget, &published, spec@.name));
            result
        },
        Err(error) => Err(PublishedError::Pattern { error }),
    }
}

/// The patterns of the files are small enough for their predecessors to be encoded.
pub open spec fn files_encodable(files: &PatternFiles) -> bool {
    forall|path: Seq<char>| #[trigger]
        files.texts@.contains_key(path) ==> (crate::published::pattern_of_text(files.texts@[path]@) matches Ok(rows)
            ==> crate::encoding::place_count(rows[0].len() as int, rows.len() as int) < i32::MAX)
}

} // verus!
