//! Families of neighbouring patterns, put to the test.
//!
//! The patterns of a family are composed at one candidate place after the other, until the
//! whole allows and forbids what its parts do together.

use crate::bits;
use crate::candidates;
use crate::candidates::{curated_horizontal_candidate_deltas, curated_vertical_candidate_deltas};
use crate::circuit;
use crate::composites;
use crate::composites::{composite_relation, CompositeRelation, LoadedPiece, SharedModel, SharedPort};
use crate::encoding::CellCoord;
use crate::gadget_verifier;
use crate::gadget_verifier::{GadgetPattern, GadgetVerifier, RelationCheckReport, VerifierError};
use crate::interface_error;
use crate::interface_error::{InterfaceError, InterfaceFailure};
use crate::interfaces;
use crate::interfaces::{
    filtered_horizontal_families, filtered_vertical_families, horizontal_family_label, vertical_family_label,
    InterfaceBasisCertificate, InterfaceBasisEntry, InterfaceOrientation,
};
use crate::published;
use crate::published::PatternFiles;
use crate::routing;
use crate::routing::{HorizontalInterfaceFamily, VerticalInterfaceFamily, RoutingWitness};
use crate::stock;
use crate::text;
use crate::text::{push_bool, push_usize};
use crate::wholes;
use crate::wholes::{build_composite_gadget, InterfacePlacement};
use vstd::prelude::*;

verus! {

/// What became of the test of a family.
#[derive(Debug, Clone)]
pub struct InterfaceLemmaReport {
    pub orientation: InterfaceOrientation,
    pub label: String,
    pub count: usize,
    pub external_ports: Vec<String>,
    pub expected_allowed_rows: usize,
    pub candidate_count: usize,
    pub placement: Option<InterfacePlacement>,
    pub relation_report: Option<RelationCheckReport>,
    pub error: Option<String>,
}

/// What became of the test of a whole.
pub type Outcome = Result<RelationCheckReport, InterfaceError>;

/// The whole allows and forbids what it should.
pub open spec fn is_good(outcome: Outcome) -> bool {
    outcome matches Ok(report) && report.allowed_assignments_hold && report.forbidden_assignments_hold
}

/// What went wrong with a whole.
pub open spec fn outcome_text(outcome: Outcome) -> Seq<char> {
    match outcome {
        Ok(report) => "relation mismatch: allowed_ok="@ + text::bool_text(report.allowed_assignments_hold)
            + " forbidden_ok="@ + text::bool_text(report.forbidden_assignments_hold),
        Err(error) => interface_error::interface_text(error@),
    }
}

/// The outcome of testing a gadget.
pub open spec fn is_relation_outcome(
    timeout: Option<u64>,
    outcome: Outcome,
    gadget: &GadgetPattern,
    relation: CompositeRelation,
) -> bool {
    match outcome {
        Ok(report) => gadget_verifier::is_relation_result(
            Ok::<RelationCheckReport, VerifierError>(report),
            timeout,
            gadget,
            relation.allowed@,
            relation.forbidden@,
        ),
        Err(InterfaceError::Gadget { error }) => gadget_verifier::is_relation_result(
            Err::<RelationCheckReport, VerifierError>(error),
            timeout,
            gadget,
            relation.allowed@,
            relation.forbidden@,
        ),
        Err(_) => false,
    }
}

/// The outcome of testing a whole, if it can be composed.
pub open spec fn follows(
    timeout: Option<u64>,
    outcome: Outcome,
    whole: Result<GadgetPattern, InterfaceError>,
    relation: CompositeRelation,
) -> bool {
    match whole {
        Ok(gadget) => is_relation_outcome(timeout, outcome, &gadget, relation),
        Err(failure) => outcome matches Err(error) && error@ == failure@,
    }
}

/// The outcome of composing pieces and testing the whole.
pub open spec fn is_outcome(
    timeout: Option<u64>,
    outcome: Outcome,
    name: Seq<char>,
    pieces: Seq<&LoadedPiece>,
    placement: InterfacePlacement,
    shared: Seq<SharedModel>,
    relation: CompositeRelation,
) -> bool {
    exists|whole: Result<GadgetPattern, InterfaceError>| #[trigger]
        wholes::is_whole_result(whole, name, pieces, placement, shared) && follows(timeout, outcome, whole, relation)
}

/// The pieces stand at fixed places, but for the last, which stands at the candidate place.
pub open spec fn is_place(
    placement: InterfacePlacement,
    pieces: Seq<&LoadedPiece>,
    fixed: Seq<(isize, isize)>,
    last: (isize, isize),
) -> bool {
    let list = placement.piece_origins@;
    &&& list.len() == pieces.len()
    &&& forall|i: int|
        0 <= i < list.len() ==> (#[trigger] list[i]).0@ == pieces[i].role@ && (list[i].1, list[i].2) == (if i
            < fixed.len() {
            fixed[i]
        } else {
            last
        })
}

/// The outcome at a candidate place.
pub open spec fn is_candidate_outcome(
    timeout: Option<u64>,
    outcome: Outcome,
    name: Seq<char>,
    pieces: Seq<&LoadedPiece>,
    fixed: Seq<(isize, isize)>,
    last: (isize, isize),
    shared: Seq<SharedModel>,
    relation: CompositeRelation,
) -> bool {
    exists|placement: InterfacePlacement| #[trigger]
        is_place(placement, pieces, fixed, last) && is_outcome(timeout, outcome, name, pieces, placement, shared, relation)
}

/// All that a test needs.
pub struct Trial<'a> {
    pub name: Seq<char>,
    pub pieces: Seq<&'a LoadedPiece>,
    pub shared: Seq<SharedModel>,
    pub fixed: Seq<(isize, isize)>,
    pub candidates: Seq<(isize, isize)>,
    pub limit: Option<usize>,
    pub timeout: Option<u64>,
}

/// The candidates are tried one after the other, until one is good, or the limit is
/// reached, or none is left.
pub open spec fn is_search(
    report: InterfaceLemmaReport,
    trial: Trial,
    relation: CompositeRelation,
    outcomes: Seq<Outcome>,
) -> bool {
    let n = outcomes.len();
    &&& report.candidate_count == n
    &&& n <= trial.candidates.len()
    &&& trial.limit matches Some(limit) ==> n <= limit
    &&& forall|i: int|
        0 <= i < n ==> is_candidate_outcome(
            trial.timeout,
            #[trigger] outcomes[i],
            trial.name,
            trial.pieces,
            trial.fixed,
            trial.candidates[i],
            trial.shared,
            relation,
        )
    &&& forall|i: int| 0 <= i < n - 1 ==> !is_good(#[trigger] outcomes[i])
    &&& if n > 0 && is_good(outcomes[n - 1]) {
        &&& report.relation_report == Some(outcomes[n - 1]->Ok_0)
        &&& report.error is None
        &&& report.placement matches Some(placement) && is_place(
            placement,
            trial.pieces,
            trial.fixed,
            trial.candidates[n - 1],
        )
    } else {
        &&& n == trial.candidates.len() || trial.limit == Some(n as usize)
        &&& report.relation_report is None
        &&& report.placement is None
        &&& report.error matches Some(error) && error@ == (if n == 0 {
            "No successful candidate found"@
        } else {
            outcome_text(outcomes[n - 1])
        })
    }
}

/// The report on a family.
pub open spec fn is_family_report(
    report: InterfaceLemmaReport,
    orientation: InterfaceOrientation,
    label: Seq<char>,
    count: usize,
    trial: Trial,
) -> bool {
    &&& report.orientation == orientation
    &&& report.label@ == label
    &&& report.count == count
    &&& exists|relation: CompositeRelation, outcomes: Seq<Outcome>|
        composites::is_composite_relation(relation, composites::parts_of(trial.pieces), trial.shared)
            && circuit::texts(report.external_ports@) == circuit::texts(relation.external_ports@)
            && report.expected_allowed_rows == relation.allowed@.len() && #[trigger] is_search(
            report,
            trial,
            relation,
            outcomes,
        )
}

impl InterfaceLemmaReport {
    /// The test succeeded.
    pub open spec fn succeeds(&self) -> bool {
        self.relation_report matches Some(report) && report.allowed_assignments_hold && report.forbidden_assignments_hold
    }

    /// Whether the test succeeded.
    pub fn is_success(&self) -> (success: bool)
        ensures
            success == self.succeeds(),
    {
        match &self.relation_report {
            Some(report) => report.allowed_assignments_hold && report.forbidden_assignments_hold,
            None => false,
        }
    }

    /// The line about the test in a summary.
    pub open spec fn summary_line(&self) -> Seq<char> {
        self.label@ + " ["@ + interfaces::orientation_text(self.orientation) + "]: success="@ + text::bool_text(
            self.succeeds(),
        ) + " count="@ + text::decimal(self.count as nat) + " candidates="@ + text::decimal(
            self.candidate_count as nat,
        ) + " external_ports="@ + text::joined(circuit::texts(self.external_ports@), ","@) + " expected_allowed_rows="@
            + text::decimal(self.expected_allowed_rows as nat) + (match self.error {
            Some(error) => " error="@ + error@,
            None => ""@,
        })
    }

    /// The line about the test in a summary.
    pub fn render_summary_line(&self) -> (line: String)
        ensures
            line@ == self.summary_line(),
    {
        let mut out: String = self.label.as_str().to_owned();
        out.append(" [");
        out.append(self.orientation.as_str());
        out.append("]: success=");
        push_bool(&mut out, self.is_success());
        out.append(" count=");
        push_usize(&mut out, self.count);
        out.append(" candidates=");
        push_usize(&mut out, self.candidate_count);
        out.append(" external_ports=");
        let ports: String = joined_names(&self.external_ports);
        out.append(ports.as_str());
        out.append(" expected_allowed_rows=");
        push_usize(&mut out, self.expected_allowed_rows);
        match &self.error {
            Some(error) => {
                out.append(" error=");
                out.append(error.as_str());
            },
            None => {
                out.append("");
            },
        }
        assert(out@ =~= self.summary_line());
        out
    }
}

/// The names with commas between them.
fn joined_names(names: &Vec<String>) -> (out: String)
    ensures
        out@ == text::joined(circuit::texts(names@), ","@),
{
    let ghost all = circuit::texts(names@);
    let mut out: String = String::new();
    let mut k: usize = 0;
    assert(all.take(0) =~= Seq::<Seq<char>>::empty());
    assert(out@ =~= text::joined(all.take(0), ","@));
    while k < names.len()
        invariant
            k <= names@.len(),
            all == circuit::texts(names@),
            out@ == text::joined(all.take(k as int), ","@),
        decreases names.len() - k,
    {
        proof {
            text::lemma_joined_step(all, ","@, k as int);
        }
        let ghost before = out@;
        assert(all[k as int] == names@[k as int]@);
        if k > 0 {
            out.append(",");
        }
        out.append(names[k].as_str());
        assert(out@ =~= text::joined(all.take(k + 1), ","@)) by {
            if k == 0 {
                assert(before =~= Seq::<char>::empty());
            }
        }
        k += 1;
    }
    assert(all.take(k as int) =~= all);
    out
}

/// What went wrong with a whole.
fn mismatch_text(report: &RelationCheckReport) -> (out: String)
    ensures
        forall|outcome: Outcome| #![trigger outcome_text(outcome)]
            outcome == Ok::<RelationCheckReport, InterfaceError>(*report) ==> out@ == outcome_text(outcome),
{
    let mut out: String = "relation mismatch: allowed_ok=".to_owned();
    push_bool(&mut out, report.allowed_assignments_hold);
    out.append(" forbidden_ok=");
    push_bool(&mut out, report.forbidden_assignments_hold);
    out
}

/// Composes pieces, and tests the whole.
pub(crate) fn verify_composite_family(
    tester: &GadgetVerifier,
    name: &str,
    pieces: &Vec<&LoadedPiece>,
    placement: &InterfacePlacement,
    shared: &Vec<SharedPort>,
    relation: &CompositeRelation,
) -> (outcome: Outcome)
    requires
        composites::pieces_wf(pieces@),
        gadget_verifier::assignments_wf(relation.allowed@),
        gadget_verifier::assignments_wf(relation.forbidden@),
    ensures
        is_outcome(tester.configuration().timeout, outcome, name@, pieces@, *placement, composites::shared_models(shared@), *relation),
{
    let built: Result<GadgetPattern, InterfaceError> = build_composite_gadget(name, pieces, placement, shared);
    let ghost whole = built;
    let gadget: GadgetPattern = match built {
        Ok(gadget) => gadget,
        Err(error) => {
            let outcome: Outcome = Err(error);
            assert(follows(tester.configuration().timeout, outcome, whole, *relation));
            return outcome;
        },
    };
    let outcome: Outcome = match tester.verify_relation(&gadget, &relation.allowed, &relation.forbidden) {
        Ok(report) => Ok(report),
        Err(error) => Err(InterfaceError::Gadget { error }),
    };
    assert(follows(tester.configuration().timeout, outcome, whole, *relation));
    outcome
}

/// The placement with the last piece at a candidate place.
pub(crate) fn make_placement(pieces: &Vec<&LoadedPiece>, fixed: &Vec<(isize, isize)>, last: (isize, isize)) -> (placement: InterfacePlacement)
    ensures
        is_place(placement, pieces@, fixed@, last),
{
    let mut piece_origins: Vec<(String, isize, isize)> = Vec::new();
    let mut k: usize = 0;
    while k < pieces.len()
        invariant
            k <= pieces@.len(),
            piece_origins@.len() == k,
            forall|i: int|
                0 <= i < k ==> (#[trigger] piece_origins@[i]).0@ == pieces@[i].role@ && (
                piece_origins@[i].1,
                piece_origins@[i].2,
                ) == (if i < fixed@.len() {
                    fixed@[i]
                } else {
                    last
                }),
        decreases pieces.len() - k,
    {
        let origin: (isize, isize) = if k < fixed.len() {
            fixed[k]
        } else {
            last
        };
        piece_origins.push((pieces[k].role.to_owned(), origin.0, origin.1));
        k += 1;
    }
    InterfacePlacement { piece_origins }
}

/// Whether a number is below a limit.
fn is_below(n: usize, limit: Option<usize>) -> (result: bool)
    ensures
        result == (limit matches Some(most) ==> n < most),
{
    match limit {
        Some(most) => n < most,
        None => true,
    }
}

/// Tries the candidates.
fn try_candidates(
    tester: &GadgetVerifier,
    orientation: InterfaceOrientation,
    label: String,
    count: usize,
    name: &str,
    pieces: &Vec<&LoadedPiece>,
    shared: &Vec<SharedPort>,
    fixed: &Vec<(isize, isize)>,
    candidates: &Vec<(isize, isize)>,
    limit: Option<usize>,
) -> (report: InterfaceLemmaReport)
    requires
        composites::pieces_wf(pieces@),
        bits::two_to(
            composites::outer_ports(
                composites::parts_of(pieces@),
                composites::shared_models(shared@),
                pieces@.len(),
            ).len(),
        ) <= usize::MAX,
    ensures
        is_family_report(
            report,
            orientation,
            label@,
            count,
            (Trial {
                name: name@,
                pieces: pieces@,
                shared: composites::shared_models(shared@),
                fixed: fixed@,
                candidates: candidates@,
                limit,
                timeout: tester.configuration().timeout,
            }),
        ),
{
    let ghost trial = Trial {
        name: name@,
        pieces: pieces@,
        shared: composites::shared_models(shared@),
        fixed: fixed@,
        candidates: candidates@,
        limit,
        timeout: tester.configuration().timeout,
    };
    let relation: CompositeRelation = composite_relation(pieces, shared);
    let expected_allowed_rows: usize = relation.allowed.len();
    let ghost mut outcomes: Seq<Outcome> = Seq::empty();
    let mut last_error: Option<String> = None;
    let mut checked: usize = 0;
    while checked < candidates.len() && is_below(checked, limit)
        invariant
            checked <= candidates@.len(),
            limit matches Some(most) ==> checked <= most,
            composites::pieces_wf(pieces@),
            trial == (Trial {
                name: name@,
                pieces: pieces@,
                shared: composites::shared_models(shared@),
                fixed: fixed@,
                candidates: candidates@,
                limit,
                timeout: tester.configuration().timeout,
            }),
            composites::is_composite_relation(relation, composites::parts_of(trial.pieces), trial.shared),
            expected_allowed_rows == relation.allowed@.len(),
            outcomes.len() == checked,
            forall|i: int|
                0 <= i < checked ==> !is_good(#[trigger] outcomes[i]) && is_candidate_outcome(
                    tester.configuration().timeout,
                    outcomes[i],
                    trial.name,
                    trial.pieces,
                    trial.fixed,
                    trial.candidates[i],
                    trial.shared,
                    relation,
                ),
            checked == 0 ==> last_error is None,
            checked > 0 ==> (last_error matches Some(error) && error@ == outcome_text(outcomes[checked - 1])),
        decreases candidates.len() - checked,
    {
        let placement: InterfacePlacement = make_placement(pieces, fixed, candidates[checked]);
        let outcome: Outcome = verify_composite_family(tester, name, pieces, &placement, shared, &relation);
        let ghost seen = outcome;
        let ghost before = outcomes;
        proof {
            assert(is_candidate_outcome(
                tester.configuration().timeout,
                seen,
                trial.name,
                trial.pieces,
                trial.fixed,
                trial.candidates[checked as int],
                trial.shared,
                relation,
            ));
            outcomes = outcomes.push(seen);
            assert forall|i: int| 0 <= i < checked + 1 implies is_candidate_outcome(
                tester.configuration().timeout,
                #[trigger] outcomes[i],
                trial.name,
                trial.pieces,
                trial.fixed,
                trial.candidates[i],
                trial.shared,
                relation,
            ) && (i < checked ==> !is_good(outcomes[i])) by {
                if i < checked {
                    assert(outcomes[i] == before[i]);
                }
            }
        }
        checked += 1;
        match outcome {
            Ok(report) => {
                if report.allowed_assignments_hold && report.forbidden_assignments_hold {
                    let ghost rel = relation;
                    let found: InterfaceLemmaReport = InterfaceLemmaReport {
                        orientation,
                        label,
                        count,
                        external_ports: relation.external_ports,
                        expected_allowed_rows,
                        candidate_count: checked,
                        placement: Some(placement),
                        relation_report: Some(report),
                        error: None,
                    };
                    assert(is_search(found, trial, rel, outcomes));
                    return found;
                }
                last_error = Some(mismatch_text(&report));
                assert(last_error->Some_0@ == outcome_text(seen));
            },
            Err(error) => {
                last_error = Some(error.to_string());
            },
        }
    }
    let error: Option<String> = match last_error {
        Some(error) => Some(error),
        None => Some("No successful candidate found".to_owned()),
    };
    let ghost rel = relation;
    let missed: InterfaceLemmaReport = InterfaceLemmaReport {
        orientation,
        label,
        count,
        external_ports: relation.external_ports,
        expected_allowed_rows,
        candidate_count: checked,
        placement: None,
        relation_report: None,
        error,
    };
    assert(is_search(missed, trial, rel, outcomes));
    missed
}

/// The steps by which a candidate may be moved: none, three back, three on, six back, and
/// so on.
pub open spec fn offset(i: int) -> int {
    if i % 2 == 1 {
        -3 * ((i + 1) / 2)
    } else {
        3 * (i / 2)
    }
}

/// Places around another.
pub open spec fn around(centre: (int, int), columns: int, rows: int) -> Seq<(isize, isize)> {
    Seq::new(
        (columns * rows) as nat,
        |k: int| ((centre.0 + offset(k / rows)) as isize, (centre.1 + offset(k % rows)) as isize),
    )
}

/// Pairs of coordinates, as places.
pub open spec fn as_places(list: Seq<(i32, i32)>) -> Seq<(isize, isize)> {
    Seq::new(list.len(), |i: int| (list[i].0 as isize, list[i].1 as isize))
}

/// The candidate places of a piece: those that are known, and those around the place where
/// the wires meet.
pub open spec fn candidate_places(
    known: Seq<(i32, i32)>,
    centre: (int, int),
    columns: int,
    rows: int,
) -> Seq<(isize, isize)> {
    as_places(known) + around(centre, columns, rows)
}

/// The places around a place are machine numbers.
pub open spec fn is_within(place: (int, int), columns: int, rows: int) -> bool {
    &&& isize::MIN + 3 * (columns / 2) <= place.0 <= isize::MAX - 3 * (columns / 2)
    &&& isize::MIN + 3 * (rows / 2) <= place.1 <= isize::MAX - 3 * (rows / 2)
}

fn can_reach(place: (i128, i128), columns: i128, rows: i128) -> (result: bool)
    requires
        0 < columns <= 16,
        0 < rows <= 16,
    ensures
        result == is_within((place.0 as int, place.1 as int), columns as int, rows as int),
{
    let low: i128 = isize::MIN as i128;
    let high: i128 = isize::MAX as i128;
    let wide: i128 = 3 * (columns / 2);
    let tall: i128 = 3 * (rows / 2);
    low + wide <= place.0 && place.0 <= high - wide && low + tall <= place.1 && place.1 <= high - tall
}

fn offset_of(i: isize) -> (steps: isize)
    requires
        0 <= i <= 16,
    ensures
        steps == offset(i as int),
        -3 * ((i + 1) / 2) <= steps <= 3 * (i / 2),
{
    if i % 2 == 1 {
        -3 * ((i + 1) / 2)
    } else {
        3 * (i / 2)
    }
}

/// The candidate places of a piece.
fn list_candidates(known: &Vec<(i32, i32)>, centre: (isize, isize), columns: isize, rows: isize) -> (list: Vec<
    (isize, isize),
>)
    requires
        is_within((centre.0 as int, centre.1 as int), columns as int, rows as int),
        0 < columns <= 16,
        0 < rows <= 16,
    ensures
        list@ == candidate_places(known@, (centre.0 as int, centre.1 as int), columns as int, rows as int),
{
    let ghost middle = (centre.0 as int, centre.1 as int);
    let mut list: Vec<(isize, isize)> = Vec::new();
    let mut k: usize = 0;
    while k < known.len()
        invariant
            k <= known@.len(),
            list@ == as_places(known@).take(k as int),
        decreases known.len() - k,
    {
        list.push((known[k].0 as isize, known[k].1 as isize));
        assert(list@ =~= as_places(known@).take(k + 1));
        k += 1;
    }
    let ghost first = as_places(known@);
    let ghost second = around(middle, columns as int, rows as int);
    assert(list@ =~= first + second.take(0));
    assert(0 <= columns * rows <= 256) by (nonlinear_arith)
        requires
            0 < columns <= 16,
            0 < rows <= 16,
    ;
    let total: isize = columns * rows;
    let mut m: isize = 0;
    while m < total
        invariant
            0 <= m <= total,
            total == columns * rows,
            0 <= total <= 256,
            0 < columns <= 16,
            0 < rows <= 16,
            is_within(middle, columns as int, rows as int),
            middle == (centre.0 as int, centre.1 as int),
            second == around(middle, columns as int, rows as int),
            list@ == first + second.take(m as int),
        decreases total - m,
    {
        assert(0 <= m / rows < columns && 0 <= m % rows < rows) by (nonlinear_arith)
            requires
                0 <= m < columns * rows,
                0 < rows,
        ;
        list.push((centre.0 + offset_of(m / rows), centre.1 + offset_of(m % rows)));
        assert(list@ =~= first + second.take(m + 1));
        m += 1;
    }
    assert(second.take(m as int) =~= second);
    list
}

/// The joined ports of patterns side by side.
pub open spec fn shared_across() -> Seq<SharedModel> {
    seq![
        SharedModel { left_role: "left"@, left_port: "E"@, right_role: "connector"@, right_port: "W"@ },
        SharedModel { left_role: "connector"@, left_port: "E"@, right_role: "right"@, right_port: "W"@ },
    ]
}

/// The joined ports of patterns below each other.
pub open spec fn shared_down() -> Seq<SharedModel> {
    seq![SharedModel { left_role: "top"@, left_port: "S"@, right_role: "bottom"@, right_port: "N"@ }]
}

/// A result is the failure.
pub open spec fn lemma_fails(result: Result<InterfaceLemmaReport, InterfaceError>, failure: InterfaceFailure) -> bool {
    result matches Err(error) && error@ == failure
}

/// A place as a pair of coordinates.
pub open spec fn place_pair(place: (int, int)) -> (isize, isize) {
    (place.0 as isize, place.1 as isize)
}

/// Where the connector lies: its western wire meets the eastern wire of the left pattern.
pub open spec fn connector_place(ends: (CellCoord, CellCoord, CellCoord, CellCoord)) -> (int, int) {
    (ends.0.x - ends.1.x, ends.0.y - ends.1.y)
}

/// Where the wires of the connector and the right pattern meet.
pub open spec fn right_place(ends: (CellCoord, CellCoord, CellCoord, CellCoord)) -> (int, int) {
    (connector_place(ends).0 + ends.2.x - ends.3.x, connector_place(ends).1 + ends.2.y - ends.3.y)
}

/// The report on the three pieces of a family of patterns side by side.
pub open spec fn tells_across(
    timeout: Option<u64>,
    report: InterfaceLemmaReport,
    family: HorizontalInterfaceFamily,
    limit: Option<usize>,
    ends: (CellCoord, CellCoord, CellCoord, CellCoord),
    left: &LoadedPiece,
    connector: &LoadedPiece,
    right: &LoadedPiece,
) -> bool {
    let names = routing::horizontal_family_names(family);
    is_family_report(
        report,
        InterfaceOrientation::Horizontal,
        interfaces::across_label(names),
        family.count,
        (Trial {
            name: "horizontal:"@ + interfaces::across_label(names),
            pieces: seq![left, connector, right],
            shared: shared_across(),
            fixed: seq![(0isize, 0isize), place_pair(connector_place(ends))],
            candidates: candidate_places(
                candidates::known_right_deltas(names[0], names[1], names[2]),
                right_place(ends),
                7,
                3,
            ),
            limit,
            timeout,
        }),
    )
}

/// The report on a family of patterns side by side, whose wires end where stated.
pub open spec fn is_across_report(
    timeout: Option<u64>,
    files: &PatternFiles,
    family: HorizontalInterfaceFamily,
    limit: Option<usize>,
    ends: (CellCoord, CellCoord, CellCoord, CellCoord),
    report: InterfaceLemmaReport,
) -> bool {
    let names = routing::horizontal_family_names(family);
    exists|left: LoadedPiece, connector: LoadedPiece, right: LoadedPiece|
        wholes::is_loaded(left, files, "left"@, names[0]) && wholes::is_loaded(connector, files, "connector"@, names[1])
            && wholes::is_loaded(right, files, "right"@, names[2]) && #[trigger] tells_across(
            timeout,
            report,
            family,
            limit,
            ends,
            &left,
            &connector,
            &right,
        )
}

/// The result of testing a family of patterns side by side, which can be read.
pub open spec fn is_across_result(
    timeout: Option<u64>,
    files: &PatternFiles,
    family: HorizontalInterfaceFamily,
    limit: Option<usize>,
    result: Result<InterfaceLemmaReport, InterfaceError>,
) -> bool {
    let names = routing::horizontal_family_names(family);
    let left = stock::rows_named(files, names[0])->Some_0;
    let connector = stock::rows_named(files, names[1])->Some_0;
    let right = stock::rows_named(files, names[2])->Some_0;
    match stock::ends_of(left).east {
        None => lemma_fails(result, InterfaceFailure::MissingAnchor(names[0], "E"@)),
        Some(left_east) => match stock::ends_of(connector).west {
            None => lemma_fails(result, InterfaceFailure::MissingAnchor(names[1], "W"@)),
            Some(west) => match stock::ends_of(connector).east {
                None => lemma_fails(result, InterfaceFailure::MissingAnchor(names[1], "E"@)),
                Some(east) => match stock::ends_of(right).west {
                    None => lemma_fails(result, InterfaceFailure::MissingAnchor(names[2], "W"@)),
                    Some(right_west) => {
                        let ends = (left_east, west, east, right_west);
                        if !is_within(connector_place(ends), 1, 1) || !is_within(right_place(ends), 7, 3) {
                            lemma_fails(result, InterfaceFailure::TooLarge)
                        } else {
                            result matches Ok(report) && is_across_report(timeout, files, family, limit, ends, report)
                        }
                    },
                },
            },
        },
    }
}

/// The result of testing a family of patterns side by side.
pub open spec fn is_horizontal_result(
    timeout: Option<u64>,
    files: &PatternFiles,
    family: HorizontalInterfaceFamily,
    limit: Option<usize>,
    result: Result<InterfaceLemmaReport, InterfaceError>,
) -> bool {
    let names = routing::horizontal_family_names(family);
    match wholes::piece_failure(files, names[0]) {
        Some(failure) => lemma_fails(result, failure),
        None => match wholes::piece_failure(files, names[1]) {
            Some(failure) => lemma_fails(result, failure),
            None => match wholes::piece_failure(files, names[2]) {
                Some(failure) => lemma_fails(result, failure),
                None => is_across_result(timeout, files, family, limit, result),
            },
        },
    }
}

/// The report on the two pieces of a family of patterns below each other.
pub open spec fn tells_down(
    timeout: Option<u64>,
    report: InterfaceLemmaReport,
    family: VerticalInterfaceFamily,
    limit: Option<usize>,
    ends: (CellCoord, CellCoord),
    top: &LoadedPiece,
    bottom: &LoadedPiece,
) -> bool {
    let names = routing::vertical_family_names(family);
    is_family_report(
        report,
        InterfaceOrientation::Vertical,
        interfaces::down_label(names),
        family.count,
        (Trial {
            name: "vertical:"@ + interfaces::down_label(names),
            pieces: seq![top, bottom],
            shared: shared_down(),
            fixed: seq![(0isize, 0isize)],
            candidates: candidate_places(
                candidates::known_bottom_deltas(names[0], names[1]),
                (ends.0.x - ends.1.x, ends.0.y - ends.1.y),
                3,
                9,
            ),
            limit,
            timeout,
        }),
    )
}

/// The report on a family of patterns below each other, whose wires end where stated.
pub open spec fn is_down_report(
    timeout: Option<u64>,
    files: &PatternFiles,
    family: VerticalInterfaceFamily,
    limit: Option<usize>,
    ends: (CellCoord, CellCoord),
    report: InterfaceLemmaReport,
) -> bool {
    let names = routing::vertical_family_names(family);
    exists|top: LoadedPiece, bottom: LoadedPiece|
        wholes::is_loaded(top, files, "top"@, names[0]) && wholes::is_loaded(bottom, files, "bottom"@, names[1])
            && #[trigger] tells_down(timeout, report, family, limit, ends, &top, &bottom)
}

/// The result of testing a family of patterns below each other, which can be read.
pub open spec fn is_down_result(
    timeout: Option<u64>,
    files: &PatternFiles,
    family: VerticalInterfaceFamily,
    limit: Option<usize>,
    result: Result<InterfaceLemmaReport, InterfaceError>,
) -> bool {
    let names = routing::vertical_family_names(family);
    let top = stock::rows_named(files, names[0])->Some_0;
    let bottom = stock::rows_named(files, names[1])->Some_0;
    match stock::ends_of(top).south {
        None => lemma_fails(result, InterfaceFailure::MissingAnchor(names[0], "S"@)),
        Some(south) => match stock::ends_of(bottom).north {
            None => lemma_fails(result, InterfaceFailure::MissingAnchor(names[1], "N"@)),
            Some(north) => if !is_within((south.x - north.x, south.y - north.y), 3, 9) {
                lemma_fails(result, InterfaceFailure::TooLarge)
            } else {
                result matches Ok(report) && is_down_report(timeout, files, family, limit, (south, north), report)
            },
        },
    }
}

/// The result of testing a family of patterns below each other.
pub open spec fn is_vertical_result(
    timeout: Option<u64>,
    files: &PatternFiles,
    family: VerticalInterfaceFamily,
    limit: Option<usize>,
    result: Result<InterfaceLemmaReport, InterfaceError>,
) -> bool {
    let names = routing::vertical_family_names(family);
    match wholes::piece_failure(files, names[0]) {
        Some(failure) => lemma_fails(result, failure),
        None => match wholes::piece_failure(files, names[1]) {
            Some(failure) => lemma_fails(result, failure),
            None => is_down_result(timeout, files, family, limit, result),
        },
    }
}

/// The number of ports of a whole of up to three parts is small.
pub proof fn lemma_few_ports(pieces: Seq<&LoadedPiece>, shared: Seq<SharedModel>)
    requires
        composites::pieces_wf(pieces),
        pieces.len() <= 3,
    ensures
        bits::two_to(composites::outer_ports(composites::parts_of(pieces), shared, pieces.len()).len()) <= 4096,
{
    let parts = composites::parts_of(pieces);
    assert forall|i: int| 0 <= i < parts.len() implies (#[trigger] parts[i]).spec.wires.len() <= 4 by {
        assert(pieces[i].wf());
    }
    composites::lemma_outer_count(parts, shared, pieces.len());
    bits::lemma_two_to_grows(composites::outer_ports(parts, shared, pieces.len()).len(), 12);
    reveal_with_fuel(bits::two_to, 14);
}

/// The ends of the wires of a piece, and that they lie inside it.
pub proof fn lemma_piece_ends(piece: &LoadedPiece, files: &PatternFiles, role: Seq<char>, name: Seq<char>)
    requires
        wholes::is_loaded(*piece, files, role, name),
    ensures
        published::anchors_of(&piece.pattern) == stock::ends_of(stock::rows_named(files, name)->Some_0),
        piece.pattern@ == stock::rows_named(files, name)->Some_0,
        piece.pattern@.len() == piece.pattern.height,
{
}

/// Tests a family of patterns side by side.
pub fn discharge_horizontal_interface_family(
    files: &PatternFiles,
    tester: &GadgetVerifier,
    family: &HorizontalInterfaceFamily,
    max_candidates_per_family: Option<usize>,
) -> (result: Result<InterfaceLemmaReport, InterfaceError>)
    requires
        files.wf(),
    ensures
        is_horizontal_result(tester.configuration().timeout, files, *family, max_candidates_per_family, result),
{
    let ghost names = routing::horizontal_family_names(*family);
    let left: LoadedPiece = match LoadedPiece::load(files, "left", family.left_spec_name) {
        Ok(piece) => piece,
        Err(error) => {
            return Err(error);
        },
    };
    let connector: LoadedPiece = match LoadedPiece::load(files, "connector", family.connector_spec_name) {
        Ok(piece) => piece,
        Err(error) => {
            return Err(error);
        },
    };
    let right: LoadedPiece = match LoadedPiece::load(files, "right", family.right_spec_name) {
        Ok(piece) => piece,
        Err(error) => {
            return Err(error);
        },
    };
    proof {
        lemma_piece_ends(&left, files, "left"@, names[0]);
        lemma_piece_ends(&connector, files, "connector"@, names[1]);
        lemma_piece_ends(&right, files, "right"@, names[2]);
        crate::library::lemma_spec_named(names[0]);
        crate::library::lemma_spec_named(names[1]);
        crate::library::lemma_spec_named(names[2]);
        lemma_port_texts();
    }
    let left_east: CellCoord = match left.anchor("E") {
        Ok(end) => end,
        Err(error) => {
            return Err(error);
        },
    };
    let connector_west: CellCoord = match connector.anchor("W") {
        Ok(end) => end,
        Err(error) => {
            return Err(error);
        },
    };
    let connector_east: CellCoord = match connector.anchor("E") {
        Ok(end) => end,
        Err(error) => {
            return Err(error);
        },
    };
    let right_west: CellCoord = match right.anchor("W") {
        Ok(end) => end,
        Err(error) => {
            return Err(error);
        },
    };
    let between: (i128, i128) = (
        left_east.x as i128 - connector_west.x as i128,
        left_east.y as i128 - connector_west.y as i128,
    );
    let beyond: (i128, i128) = (
        between.0 + connector_east.x as i128 - right_west.x as i128,
        between.1 + connector_east.y as i128 - right_west.y as i128,
    );
    if !can_reach(between, 1, 1) || !can_reach(beyond, 7, 3) {
        return Err(InterfaceError::TooLarge);
    }
    let connector_origin: (isize, isize) = (between.0 as isize, between.1 as isize);
    let right_origin: (isize, isize) = (beyond.0 as isize, beyond.1 as isize);
    let mut shared: Vec<SharedPort> = Vec::new();
    shared.push(SharedPort::new("left", "E", "connector", "W"));
    shared.push(SharedPort::new("connector", "E", "right", "W"));
    let mut fixed: Vec<(isize, isize)> = Vec::new();
    fixed.push((0, 0));
    fixed.push(connector_origin);
    let known: Vec<(i32, i32)> = curated_horizontal_candidate_deltas(
        family.left_spec_name,
        family.connector_spec_name,
        family.right_spec_name,
    );
    let candidates: Vec<(isize, isize)> = list_candidates(&known, right_origin, 7, 3);
    let label: String = horizontal_family_label(family);
    let mut name: String = "horizontal:".to_owned();
    name.append(label.as_str());
    let mut pieces: Vec<&LoadedPiece> = Vec::new();
    pieces.push(&left);
    pieces.push(&connector);
    pieces.push(&right);
    proof {
        assert(pieces@ =~= seq![&left, &connector, &right]);
        assert(composites::shared_models(shared@) =~= shared_across());
        assert(fixed@ =~= seq![(0isize, 0isize), connector_origin]);
        lemma_few_ports(pieces@, composites::shared_models(shared@));
    }
    let report: InterfaceLemmaReport = try_candidates(
        tester,
        InterfaceOrientation::Horizontal,
        label,
        family.count,
        name.as_str(),
        &pieces,
        &shared,
        &fixed,
        &candidates,
        max_candidates_per_family,
    );
    assert(tells_across(
        tester.configuration().timeout,
        report,
        *family,
        max_candidates_per_family,
        (left_east, connector_west, connector_east, right_west),
        &left,
        &connector,
        &right,
    ));
    Ok(report)
}

/// The texts of the four ports differ.
pub proof fn lemma_port_texts()
    ensures
        "E"@ != "N"@,
        "E"@ != "W"@,
        "E"@ != "S"@,
        "N"@ != "W"@,
        "N"@ != "S"@,
        "W"@ != "S"@,
{
    reveal_strlit("E");
    reveal_strlit("N");
    reveal_strlit("W");
    reveal_strlit("S");
    assert("E"@[0] != "N"@[0]);
    assert("E"@[0] != "W"@[0]);
    assert("E"@[0] != "S"@[0]);
    assert("N"@[0] != "W"@[0]);
    assert("N"@[0] != "S"@[0]);
    assert("W"@[0] != "S"@[0]);
}

/// Tests a family of patterns below each other.
pub fn discharge_vertical_interface_family(
    files: &PatternFiles,
    tester: &GadgetVerifier,
    family: &VerticalInterfaceFamily,
    max_candidates_per_family: Option<usize>,
) -> (result: Result<InterfaceLemmaReport, InterfaceError>)
    requires
        files.wf(),
    ensures
        is_vertical_result(tester.configuration().timeout, files, *family, max_candidates_per_family, result),
{
    let ghost names = routing::vertical_family_names(*family);
    let top: LoadedPiece = match LoadedPiece::load(files, "top", family.top_spec_name) {
        Ok(piece) => piece,
        Err(error) => {
            return Err(error);
        },
    };
    let bottom: LoadedPiece = match LoadedPiece::load(files, "bottom", family.bottom_spec_name) {
        Ok(piece) => piece,
        Err(error) => {
            return Err(error);
        },
    };
    proof {
        lemma_piece_ends(&top, files, "top"@, names[0]);
        lemma_piece_ends(&bottom, files, "bottom"@, names[1]);
        crate::library::lemma_spec_named(names[0]);
        crate::library::lemma_spec_named(names[1]);
        lemma_port_texts();
    }
    let top_south: CellCoord = match top.anchor("S") {
        Ok(end) => end,
        Err(error) => {
            return Err(error);
        },
    };
    let bottom_north: CellCoord = match bottom.anchor("N") {
        Ok(end) => end,
        Err(error) => {
            return Err(error);
        },
    };
    let below: (i128, i128) = (
        top_south.x as i128 - bottom_north.x as i128,
        top_south.y as i128 - bottom_north.y as i128,
    );
    if !can_reach(below, 3, 9) {
        return Err(InterfaceError::TooLarge);
    }
    let bottom_origin: (isize, isize) = (below.0 as isize, below.1 as isize);
    let mut shared: Vec<SharedPort> = Vec::new();
    shared.push(SharedPort::new("top", "S", "bottom", "N"));
    let mut fixed: Vec<(isize, isize)> = Vec::new();
    fixed.push((0, 0));
    let known: Vec<(i32, i32)> = curated_vertical_candidate_deltas(family.top_spec_name, family.bottom_spec_name);
    let candidates: Vec<(isize, isize)> = list_candidates(&known, bottom_origin, 3, 9);
    let label: String = vertical_family_label(family);
    let mut name: String = "vertical:".to_owned();
    name.append(label.as_str());
    let mut pieces: Vec<&LoadedPiece> = Vec::new();
    pieces.push(&top);
    pieces.push(&bottom);
    proof {
        assert(pieces@ =~= seq![&top, &bottom]);
        assert(composites::shared_models(shared@) =~= shared_down());
        assert(fixed@ =~= seq![(0isize, 0isize)]);
        lemma_few_ports(pieces@, composites::shared_models(shared@));
    }
    let report: InterfaceLemmaReport = try_candidates(
        tester,
        InterfaceOrientation::Vertical,
        label,
        family.count,
        name.as_str(),
        &pieces,
        &shared,
        &fixed,
        &candidates,
        max_candidates_per_family,
    );
    assert(tells_down(tester.configuration().timeout, report, *family, max_candidates_per_family, (top_south, bottom_north), &top, &bottom));
    Ok(report)
}

/// What became of the tests of all families.
#[derive(Debug, Clone)]
pub struct InterfaceLemmaSummary {
    pub horizontal: Vec<InterfaceLemmaReport>,
    pub vertical: Vec<InterfaceLemmaReport>,
}

/// All tests succeeded.
pub open spec fn all_succeed(reports: Seq<InterfaceLemmaReport>) -> bool {
    forall|i: int| 0 <= i < reports.len() ==> (#[trigger] reports[i]).succeeds()
}

/// How many of the first `k` tests succeeded.
pub open spec fn successes(reports: Seq<InterfaceLemmaReport>, k: nat) -> nat
    decreases k,
{
    if k == 0 {
        0
    } else {
        successes(reports, (k - 1) as nat) + (if reports[k - 1].succeeds() {
            1nat
        } else {
            0
        })
    }
}

fn count_successes(reports: &Vec<InterfaceLemmaReport>) -> (n: usize)
    ensures
        n == successes(reports@, reports@.len()),
        n <= reports@.len(),
        n == reports@.len() <==> all_succeed(reports@),
{
    let mut n: usize = 0;
    let mut k: usize = 0;
    while k < reports.len()
        invariant
            k <= reports@.len(),
            n <= k,
            n == successes(reports@, k as nat),
            n == k <==> forall|i: int| 0 <= i < k ==> (#[trigger] reports@[i]).succeeds(),
        decreases reports.len() - k,
    {
        if reports[k].is_success() {
            n += 1;
        } else {
            assert(!reports@[k as int].succeeds());
        }
        k += 1;
    }
    n
}

impl InterfaceLemmaSummary {
    /// All tests succeeded.
    pub open spec fn succeeds(&self) -> bool {
        all_succeed(self.horizontal@) && all_succeed(self.vertical@)
    }

    /// Whether all tests succeeded.
    pub fn is_success(&self) -> (success: bool)
        ensures
            success == self.succeeds(),
    {
        count_successes(&self.horizontal) == self.horizontal.len() && count_successes(&self.vertical)
            == self.vertical.len()
    }

    /// The summary.
    pub open spec fn summary(&self) -> Seq<char> {
        "interface_lemmas_valid="@ + text::bool_text(self.succeeds()) + " horizontal_verified="@ + text::decimal(
            successes(self.horizontal@, self.horizontal@.len()),
        ) + "/"@ + text::decimal(self.horizontal@.len()) + " vertical_verified="@ + text::decimal(
            successes(self.vertical@, self.vertical@.len()),
        ) + "/"@ + text::decimal(self.vertical@.len())
    }

    /// The summary.
    pub fn render_summary(&self) -> (summary: String)
        ensures
            summary@ == self.summary(),
    {
        let mut out: String = "interface_lemmas_valid=".to_owned();
        push_bool(&mut out, self.is_success());
        out.append(" horizontal_verified=");
        push_usize(&mut out, count_successes(&self.horizontal));
        out.append("/");
        push_usize(&mut out, self.horizontal.len());
        out.append(" vertical_verified=");
        push_usize(&mut out, count_successes(&self.vertical));
        out.append("/");
        push_usize(&mut out, self.vertical.len());
        assert(out@ =~= self.summary());
        out
    }
}

/// The entry of a certificate that a report gives.
pub open spec fn is_entry_of(entry: InterfaceBasisEntry, report: InterfaceLemmaReport) -> bool {
    &&& entry.orientation == report.orientation
    &&& entry.label@ == report.label@
    &&& entry.witness_count == report.count
    &&& circuit::texts(entry.external_ports@) == circuit::texts(report.external_ports@)
    &&& entry.expected_allowed_rows == report.expected_allowed_rows
    &&& entry.candidate_count == report.candidate_count
}

impl InterfaceBasisEntry {
    /// The entry of a certificate that a report gives.
    pub fn from_report(report: &InterfaceLemmaReport) -> (result: Result<Self, InterfaceError>)
        ensures
            if report.succeeds() {
                result matches Ok(entry) && is_entry_of(entry, *report)
            } else {
                result matches Err(error) && error@ == InterfaceFailure::FailedReport(report.label@)
            },
    {
        if !report.is_success() {
            return Err(InterfaceError::FailedReport { label: report.label.as_str().to_owned() });
        }
        Ok(
            InterfaceBasisEntry {
                orientation: report.orientation,
                label: report.label.as_str().to_owned(),
                witness_count: report.count,
                external_ports: gadget_verifier::copy_names(&report.external_ports),
                expected_allowed_rows: report.expected_allowed_rows,
                candidate_count: report.candidate_count,
            },
        )
    }
}

/// The entries that reports give.
pub open spec fn are_entries_of(entries: Seq<InterfaceBasisEntry>, reports: Seq<InterfaceLemmaReport>) -> bool {
    &&& entries.len() == reports.len()
    &&& forall|i: int| 0 <= i < entries.len() ==> is_entry_of(#[trigger] entries[i], reports[i])
}

/// The label of the first of the first `k` tests that failed.
pub open spec fn first_failed(reports: Seq<InterfaceLemmaReport>, k: nat) -> Option<Seq<char>>
    decreases k,
{
    if k == 0 {
        None
    } else {
        match first_failed(reports, (k - 1) as nat) {
            Some(label) => Some(label),
            None => if reports[k - 1].succeeds() {
                None
            } else {
                Some(reports[k - 1].label@)
            },
        }
    }
}

proof fn lemma_failed_first(reports: Seq<InterfaceLemmaReport>, j: nat, k: nat)
    requires
        j <= k,
        first_failed(reports, j) is Some,
    ensures
        first_failed(reports, k) == first_failed(reports, j),
    decreases k,
{
    if j < k {
        lemma_failed_first(reports, j, (k - 1) as nat);
    }
}

/// The entries that reports give, unless a test failed.
fn entries_from(reports: &Vec<InterfaceLemmaReport>) -> (result: Result<Vec<InterfaceBasisEntry>, InterfaceError>)
    ensures
        match first_failed(reports@, reports@.len()) {
            Some(label) => result matches Err(error) && error@ == InterfaceFailure::FailedReport(label),
            None => result matches Ok(entries) && are_entries_of(entries@, reports@) && all_succeed(reports@),
        },
{
    let mut entries: Vec<InterfaceBasisEntry> = Vec::new();
    let mut k: usize = 0;
    while k < reports.len()
        invariant
            k <= reports@.len(),
            entries@.len() == k,
            first_failed(reports@, k as nat) is None,
            forall|i: int| 0 <= i < k ==> is_entry_of(#[trigger] entries@[i], reports@[i]),
            forall|i: int| 0 <= i < k ==> (#[trigger] reports@[i]).succeeds(),
        decreases reports.len() - k,
    {
        match InterfaceBasisEntry::from_report(&reports[k]) {
            Ok(entry) => {
                entries.push(entry);
            },
            Err(error) => {
                proof {
                    lemma_failed_first(reports@, (k + 1) as nat, reports@.len());
                }
                return Err(error);
            },
        }
        k += 1;
    }
    Ok(entries)
}

impl InterfaceBasisCertificate {
    /// The certificate that tests give, if all of them succeeded.
    pub fn from_summary(summary: &InterfaceLemmaSummary) -> (result: Result<Self, InterfaceError>)
        ensures
            match first_failed(summary.horizontal@, summary.horizontal@.len()) {
                Some(label) => result matches Err(error) && error@ == InterfaceFailure::FailedReport(label),
                None => match first_failed(summary.vertical@, summary.vertical@.len()) {
                    Some(label) => result matches Err(error) && error@ == InterfaceFailure::FailedReport(label),
                    None => summary.succeeds() && (result matches Ok(certificate) && are_entries_of(
                        certificate.horizontal@,
                        summary.horizontal@,
                    ) && are_entries_of(certificate.vertical@, summary.vertical@)),
                },
            },
    {
        let horizontal: Vec<InterfaceBasisEntry> = match entries_from(&summary.horizontal) {
            Ok(entries) => entries,
            Err(error) => {
                return Err(error);
            },
        };
        let vertical: Vec<InterfaceBasisEntry> = match entries_from(&summary.vertical) {
            Ok(entries) => entries,
            Err(error) => {
                return Err(error);
            },
        };
        Ok(InterfaceBasisCertificate { horizontal, vertical })
    }
}

/// A family of patterns side by side can be tested.
pub open spec fn across_testable(
    timeout: Option<u64>,
    files: &PatternFiles,
    family: HorizontalInterfaceFamily,
    limit: Option<usize>,
) -> bool {
    exists|report: InterfaceLemmaReport|
        is_horizontal_result(timeout, files, family, limit, Ok::<InterfaceLemmaReport, InterfaceError>(report))
}

/// A family of patterns below each other can be tested.
pub open spec fn down_testable(
    timeout: Option<u64>,
    files: &PatternFiles,
    family: VerticalInterfaceFamily,
    limit: Option<usize>,
) -> bool {
    exists|report: InterfaceLemmaReport|
        is_vertical_result(timeout, files, family, limit, Ok::<InterfaceLemmaReport, InterfaceError>(report))
}

/// The reports on families of patterns side by side, or the error of the first that cannot
/// be tested.
pub open spec fn are_across_results(
    timeout: Option<u64>,
    files: &PatternFiles,
    families: Seq<HorizontalInterfaceFamily>,
    limit: Option<usize>,
    result: Result<Vec<InterfaceLemmaReport>, InterfaceError>,
) -> bool {
    match result {
        Ok(reports) => reports@.len() == families.len() && forall|i: int|
            0 <= i < families.len() ==> is_horizontal_result(
                timeout,
                files,
                families[i],
                limit,
                Ok::<InterfaceLemmaReport, InterfaceError>(#[trigger] reports@[i]),
            ),
        Err(error) => exists|i: int|
            0 <= i < families.len() && is_horizontal_result(
                timeout,
                files,
                #[trigger] families[i],
                limit,
                Err::<InterfaceLemmaReport, InterfaceError>(error),
            ) && forall|j: int| 0 <= j < i ==> across_testable(timeout, files, #[trigger] families[j], limit),
    }
}

/// The reports on families of patterns below each other, or the error of the first that
/// cannot be tested.
pub open spec fn are_down_results(
    timeout: Option<u64>,
    files: &PatternFiles,
    families: Seq<VerticalInterfaceFamily>,
    limit: Option<usize>,
    result: Result<Vec<InterfaceLemmaReport>, InterfaceError>,
) -> bool {
    match result {
        Ok(reports) => reports@.len() == families.len() && forall|i: int|
            0 <= i < families.len() ==> is_vertical_result(
                timeout,
                files,
                families[i],
                limit,
                Ok::<InterfaceLemmaReport, InterfaceError>(#[trigger] reports@[i]),
            ),
        Err(error) => exists|i: int|
            0 <= i < families.len() && is_vertical_result(
                timeout,
                files,
                #[trigger] families[i],
                limit,
                Err::<InterfaceLemmaReport, InterfaceError>(error),
            ) && forall|j: int| 0 <= j < i ==> down_testable(timeout, files, #[trigger] families[j], limit),
    }
}

fn discharge_across(
    files: &PatternFiles,
    tester: &GadgetVerifier,
    families: &Vec<HorizontalInterfaceFamily>,
    limit: Option<usize>,
) -> (result: Result<Vec<InterfaceLemmaReport>, InterfaceError>)
    requires
        files.wf(),
    ensures
        are_across_results(tester.configuration().timeout, files, families@, limit, result),
{
    let mut reports: Vec<InterfaceLemmaReport> = Vec::new();
    let mut k: usize = 0;
    while k < families.len()
        invariant
            k <= families@.len(),
            files.wf(),
            reports@.len() == k,
            forall|i: int|
                0 <= i < k ==> is_horizontal_result(
                    tester.configuration().timeout,
                    files,
                    families@[i],
                    limit,
                    Ok::<InterfaceLemmaReport, InterfaceError>(#[trigger] reports@[i]),
                ),
        decreases families.len() - k,
    {
        match discharge_horizontal_interface_family(files, tester, &families[k], limit) {
            Ok(report) => {
                reports.push(report);
            },
            Err(error) => {
                proof {
                    assert forall|j: int| 0 <= j < k implies across_testable(tester.configuration().timeout, files, #[trigger] families@[j], limit) by {
                        assert(is_horizontal_result(
                            tester.configuration().timeout,
                            files,
                            families@[j],
                            limit,
                            Ok::<InterfaceLemmaReport, InterfaceError>(reports@[j]),
                        ));
                    }
                    assert(is_horizontal_result(
                        tester.configuration().timeout,
                        files,
                        families@[k as int],
                        limit,
                        Err::<InterfaceLemmaReport, InterfaceError>(error),
                    ));
                }
                return Err(error);
            },
        }
        k += 1;
    }
    Ok(reports)
}

fn discharge_down(
    files: &PatternFiles,
    tester: &GadgetVerifier,
    families: &Vec<VerticalInterfaceFamily>,
    limit: Option<usize>,
) -> (result: Result<Vec<InterfaceLemmaReport>, InterfaceError>)
    requires
        files.wf(),
    ensures
        are_down_results(tester.configuration().timeout, files, families@, limit, result),
{
    let mut reports: Vec<InterfaceLemmaReport> = Vec::new();
    let mut k: usize = 0;
    while k < families.len()
        invariant
            k <= families@.len(),
            files.wf(),
            reports@.len() == k,
            forall|i: int|
                0 <= i < k ==> is_vertical_result(
                    tester.configuration().timeout,
                    files,
                    families@[i],
                    limit,
                    Ok::<InterfaceLemmaReport, InterfaceError>(#[trigger] reports@[i]),
                ),
        decreases families.len() - k,
    {
        match discharge_vertical_interface_family(files, tester, &families[k], limit) {
            Ok(report) => {
                reports.push(report);
            },
            Err(error) => {
                proof {
                    assert forall|j: int| 0 <= j < k implies down_testable(tester.configuration().timeout, files, #[trigger] families@[j], limit) by {
                        assert(is_vertical_result(
                            tester.configuration().timeout,
                            files,
                            families@[j],
                            limit,
                            Ok::<InterfaceLemmaReport, InterfaceError>(reports@[j]),
                        ));
                    }
                    assert(is_vertical_result(
                        tester.configuration().timeout,
                        files,
                        families@[k as int],
                        limit,
                        Err::<InterfaceLemmaReport, InterfaceError>(error),
                    ));
                }
                return Err(error);
            },
        }
        k += 1;
    }
    Ok(reports)
}

/// The families of a routing that are tested.
pub open spec fn tested_across(witness: RoutingWitness, wanted: bool, filter: Option<Seq<char>>) -> Seq<
    HorizontalInterfaceFamily,
> {
    if wanted {
        interfaces::filtered_across(witness.horizontal_families@, filter, witness.horizontal_families@.len())
    } else {
        Seq::empty()
    }
}

/// The families of a routing that are tested.
pub open spec fn tested_down(witness: RoutingWitness, wanted: bool, filter: Option<Seq<char>>) -> Seq<
    VerticalInterfaceFamily,
> {
    if wanted {
        interfaces::filtered_down(witness.vertical_families@, filter, witness.vertical_families@.len())
    } else {
        Seq::empty()
    }
}

/// The families of patterns side by side can all be tested.
pub open spec fn all_across_testable(
    timeout: Option<u64>,
    files: &PatternFiles,
    families: Seq<HorizontalInterfaceFamily>,
    limit: Option<usize>,
) -> bool {
    forall|i: int| 0 <= i < families.len() ==> across_testable(timeout, files, #[trigger] families[i], limit)
}

/// The result of testing the families of a routing: those side by side first.
pub open spec fn is_summary_result(
    timeout: Option<u64>,
    files: &PatternFiles,
    across: Seq<HorizontalInterfaceFamily>,
    down: Seq<VerticalInterfaceFamily>,
    limit: Option<usize>,
    result: Result<InterfaceLemmaSummary, InterfaceError>,
) -> bool {
    match result {
        Ok(summary) => are_across_results(
            timeout,
            files,
            across,
            limit,
            Ok::<Vec<InterfaceLemmaReport>, InterfaceError>(summary.horizontal),
        ) && are_down_results(timeout, files, down, limit, Ok::<Vec<InterfaceLemmaReport>, InterfaceError>(summary.vertical)),
        Err(error) => {
            ||| are_across_results(timeout, files, across, limit, Err::<Vec<InterfaceLemmaReport>, InterfaceError>(error))
            ||| all_across_testable(timeout, files, across, limit) && are_down_results(
                timeout,
                files,
                down,
                limit,
                Err::<Vec<InterfaceLemmaReport>, InterfaceError>(error),
            )
        },
    }
}

/// Tests the families of a routing.
pub fn discharge_routing_witness_interfaces(
    files: &PatternFiles,
    tester: &GadgetVerifier,
    witness: &RoutingWitness,
    discharge_horizontal: bool,
    discharge_vertical: bool,
    filter: Option<&str>,
    max_candidates_per_family: Option<usize>,
) -> (result: Result<InterfaceLemmaSummary, InterfaceError>)
    requires
        files.wf(),
    ensures
        is_summary_result(
            tester.configuration().timeout,
            files,
            tested_across(*witness, discharge_horizontal, interfaces::filter_text(filter)),
            tested_down(*witness, discharge_vertical, interfaces::filter_text(filter)),
            max_candidates_per_family,
            result,
        ),
{
    let across: Vec<HorizontalInterfaceFamily> = if discharge_horizontal {
        filtered_horizontal_families(witness, filter)
    } else {
        Vec::new()
    };
    let down: Vec<VerticalInterfaceFamily> = if discharge_vertical {
        filtered_vertical_families(witness, filter)
    } else {
        Vec::new()
    };
    proof {
        assert(across@ =~= tested_across(*witness, discharge_horizontal, interfaces::filter_text(filter)));
        assert(down@ =~= tested_down(*witness, discharge_vertical, interfaces::filter_text(filter)));
    }
    let horizontal: Vec<InterfaceLemmaReport> = match discharge_across(
        files,
        tester,
        &across,
        max_candidates_per_family,
    ) {
        Ok(reports) => reports,
        Err(error) => {
            return Err(error);
        },
    };
    assert forall|i: int| 0 <= i < across@.len() implies across_testable(
        tester.configuration().timeout,
        files,
        #[trigger] across@[i],
        max_candidates_per_family,
    ) by {
        assert(is_horizontal_result(
            tester.configuration().timeout,
            files,
            across@[i],
            max_candidates_per_family,
            Ok::<InterfaceLemmaReport, InterfaceError>(horizontal@[i]),
        ));
    }
    let vertical: Vec<InterfaceLemmaReport> = match discharge_down(files, tester, &down, max_candidates_per_family) {
        Ok(reports) => reports,
        Err(error) => {
            return Err(error);
        },
    };
    Ok(InterfaceLemmaSummary { horizontal, vertical })
}

} // verus!
