//! Families of neighbouring patterns whose distance is not known, and the search for it.
//!
//! The last pattern of a family is tried at all places around the one where its wire meets that
//! of its neighbour. A place is good if the whole allows and forbids what its parts do together.

use crate::audit::{HorizontalMotifFamily, VerticalMotifFamily};
use crate::bits;
use crate::composites;
use crate::composites::{composite_relation, CompositeRelation, LoadedPiece, SharedModel, SharedPort};
use crate::discharge;
use crate::discharge::{make_placement, verify_composite_family, Outcome};
use crate::encoding::CellCoord;
use crate::gadget_verifier::{GadgetVerifier, RelationCheckReport};
use crate::interface_error::{InterfaceError, InterfaceFailure};
use crate::library;
use crate::library::published_spec_named;
use crate::published::PatternFiles;
use crate::stock;
use crate::wholes;
use crate::wholes::InterfacePlacement;
use vstd::prelude::*;

verus! {

/// The patterns of a family, and the places at which the last of them is tried.
#[derive(Debug)]
pub struct CalibrationJob {
    pub label: String,
    pub pieces: Vec<LoadedPiece>,
    pub shared: Vec<SharedPort>,
    pub fixed: Vec<(isize, isize)>,
    pub candidates: Vec<(isize, isize)>,
}

/// A good place.
#[derive(Debug)]
pub struct CalibrationMatch {
    pub placement: InterfacePlacement,
    pub relation_report: RelationCheckReport,
}

/// How far a search has come.
#[derive(Debug)]
pub struct CalibrationState {
    pub checked: usize,
    pub matches: Vec<CalibrationMatch>,
}

/// The pieces, by reference.
pub open spec fn piece_refs(pieces: Seq<LoadedPiece>) -> Seq<&'static LoadedPiece> {
    Seq::new(pieces.len(), |i: int| &pieces[i])
}

impl CalibrationJob {
    /// The job's validity: its pieces are valid, and the rows of the whole can be counted.
    pub open spec fn wf(&self) -> bool {
        let refs = piece_refs(self.pieces@);
        &&& composites::pieces_wf(refs)
        &&& bits::two_to(
            composites::outer_ports(
                composites::parts_of(refs),
                composites::shared_models(self.shared@),
                refs.len(),
            ).len(),
        ) <= usize::MAX
    }
}

/// The places of a column, from the top down.
pub open spec fn column(x: int, top: int, height: int) -> Seq<(isize, isize)> {
    Seq::new(height as nat, |j: int| (x as isize, (top + j) as isize))
}

/// The places of a rectangle, column by column.
pub open spec fn rectangle(left: int, top: int, width: int, height: int) -> Seq<(isize, isize)>
    decreases width,
{
    if width <= 0 {
        Seq::empty()
    } else {
        rectangle(left, top, width - 1, height) + column(left + width - 1, top, height)
    }
}

/// How many numbers lie no farther from another than a margin.
pub open spec fn breadth(margin: int) -> int {
    if margin < 0 {
        0
    } else {
        2 * margin + 1
    }
}

/// The places that lie no farther from another than the margins.
pub open spec fn places_around(centre: (int, int), margins: (isize, isize)) -> Seq<(isize, isize)> {
    rectangle(
        centre.0 - margins.0,
        centre.1 - margins.1,
        breadth(margins.0 as int),
        breadth(margins.1 as int),
    )
}

/// The numbers that lie no farther from another than the margin are machine numbers.
pub open spec fn is_roomy(centre: int, margin: isize) -> bool {
    margin >= 0 ==> isize::MIN <= centre - margin && centre + margin <= isize::MAX
}

/// A result is the failure.
pub open spec fn job_fails(result: Result<CalibrationJob, InterfaceError>, failure: InterfaceFailure) -> bool {
    result matches Err(error) && error@ == failure
}

/// What is wrong with the first of the names whose pattern cannot be had: one that the library
/// does not know comes first.
pub open spec fn names_failure(files: &PatternFiles, names: Seq<Seq<char>>) -> Option<InterfaceFailure> {
    match first_unknown(names, names.len()) {
        Some(name) => Some(InterfaceFailure::UnknownSpec(name)),
        None => first_broken(files, names, names.len()),
    }
}

/// The first of the first `k` names that the library does not know.
pub open spec fn first_unknown(names: Seq<Seq<char>>, k: nat) -> Option<Seq<char>>
    decreases k,
{
    if k == 0 {
        None
    } else {
        match first_unknown(names, (k - 1) as nat) {
            Some(name) => Some(name),
            None => if library::spec_named(names[k - 1]) is None {
                Some(names[k - 1])
            } else {
                None
            },
        }
    }
}

/// What is wrong with the first of the first `k` patterns that cannot be read.
pub open spec fn first_broken(files: &PatternFiles, names: Seq<Seq<char>>, k: nat) -> Option<InterfaceFailure>
    decreases k,
{
    if k == 0 {
        None
    } else {
        match first_broken(files, names, (k - 1) as nat) {
            Some(failure) => Some(failure),
            None => wholes::piece_failure(files, names[k - 1]),
        }
    }
}

/// The pieces are the patterns of the names, in the roles.
pub open spec fn are_loaded(
    pieces: Seq<LoadedPiece>,
    files: &PatternFiles,
    roles: Seq<Seq<char>>,
    names: Seq<Seq<char>>,
) -> bool {
    &&& pieces.len() == names.len()
    &&& forall|i: int|
        0 <= i < names.len() ==> wholes::is_loaded(#[trigger] pieces[i], files, roles[i], names[i])
}

/// The job for patterns whose last one is tried around a place.
pub open spec fn is_job(
    job: CalibrationJob,
    files: &PatternFiles,
    label: Seq<char>,
    roles: Seq<Seq<char>>,
    names: Seq<Seq<char>>,
    shared: Seq<SharedModel>,
    fixed: Seq<(isize, isize)>,
    centre: (int, int),
    margins: (isize, isize),
) -> bool {
    &&& job.wf()
    &&& job.label@ == label
    &&& are_loaded(job.pieces@, files, roles, names)
    &&& composites::shared_models(job.shared@) == shared
    &&& job.fixed@ == fixed
    &&& job.candidates@ == places_around(centre, margins)
}

/// The job for patterns, or that the places around the middle one are out of range.
pub open spec fn is_job_around(
    result: Result<CalibrationJob, InterfaceError>,
    files: &PatternFiles,
    label: Seq<char>,
    roles: Seq<Seq<char>>,
    names: Seq<Seq<char>>,
    shared: Seq<SharedModel>,
    fixed: Seq<(isize, isize)>,
    centre: (int, int),
    margins: (isize, isize),
) -> bool {
    if !is_roomy(centre.0, margins.0) || !is_roomy(centre.1, margins.1) {
        job_fails(result, InterfaceFailure::TooLarge)
    } else {
        result matches Ok(job) && is_job(job, files, label, roles, names, shared, fixed, centre, margins)
    }
}

/// The names of patterns side by side.
pub open spec fn across_names(family: HorizontalMotifFamily) -> Seq<Seq<char>> {
    seq![family.left_spec@, family.connector_name@, family.right_spec@]
}

/// The names of patterns below each other.
pub open spec fn down_names(family: VerticalMotifFamily) -> Seq<Seq<char>> {
    seq![family.top_spec@, family.bottom_spec@]
}

/// The job for a family of patterns side by side: the connector follows the left pattern, and
/// the right pattern lies around the place where its wire meets that of the connector.
pub open spec fn is_horizontal_job(
    result: Result<CalibrationJob, InterfaceError>,
    files: &PatternFiles,
    family: HorizontalMotifFamily,
    margins: (isize, isize),
) -> bool {
    let names = across_names(family);
    match names_failure(files, names) {
        Some(failure) => job_fails(result, failure),
        None => match stock::ends_of(stock::rows_named(files, names[1])->Some_0).east {
            None => job_fails(result, InterfaceFailure::MissingAnchor(names[1], "E"@)),
            Some(east) => match stock::ends_of(stock::rows_named(files, names[2])->Some_0).west {
                None => job_fails(result, InterfaceFailure::MissingAnchor(names[2], "W"@)),
                Some(west) => is_job_around(
                    result,
                    files,
                    names[0] + " + "@ + names[1] + " + "@ + names[2],
                    seq!["left"@, "connector"@, "right"@],
                    names,
                    discharge::shared_across(),
                    seq![(0isize, 0isize), (90isize, 0isize)],
                    (90 + east.x - west.x, east.y - west.y),
                    margins,
                ),
            },
        },
    }
}

/// The job for a family of patterns below each other: the bottom pattern lies around the place
/// where its wire meets that of the top pattern.
pub open spec fn is_vertical_job(
    result: Result<CalibrationJob, InterfaceError>,
    files: &PatternFiles,
    family: VerticalMotifFamily,
    margins: (isize, isize),
) -> bool {
    let names = down_names(family);
    match names_failure(files, names) {
        Some(failure) => job_fails(result, failure),
        None => match stock::ends_of(stock::rows_named(files, names[0])->Some_0).south {
            None => job_fails(result, InterfaceFailure::MissingAnchor(names[0], "S"@)),
            Some(south) => match stock::ends_of(stock::rows_named(files, names[1])->Some_0).north {
                None => job_fails(result, InterfaceFailure::MissingAnchor(names[1], "N"@)),
                Some(north) => is_job_around(
                    result,
                    files,
                    names[0] + " / "@ + names[1],
                    seq!["top"@, "bottom"@],
                    names,
                    discharge::shared_down(),
                    seq![(0isize, 0isize)],
                    (south.x - north.x, south.y - north.y),
                    margins,
                ),
            },
        },
    }
}

/// Whether the numbers around another are machine numbers.
fn has_room(centre: i128, margin: isize) -> (result: bool)
    requires
        -0xffff_ffff_ffff_ffff_ffff <= centre <= 0xffff_ffff_ffff_ffff_ffff,
    ensures
        result == is_roomy(centre as int, margin),
{
    margin < 0 || (isize::MIN as i128 <= centre - margin as i128 && centre + margin as i128 <= isize::MAX as i128)
}

/// The number of places along an axis.
fn count_around(margin: isize) -> (count: i128)
    ensures
        count == breadth(margin as int),
{
    if margin < 0 {
        0
    } else {
        2 * (margin as i128) + 1
    }
}

/// Lists the places around another.
fn list_places(centre: (i128, i128), margins: (isize, isize)) -> (list: Vec<(isize, isize)>)
    requires
        -0xffff_ffff_ffff_ffff_ffff <= centre.0 <= 0xffff_ffff_ffff_ffff_ffff,
        -0xffff_ffff_ffff_ffff_ffff <= centre.1 <= 0xffff_ffff_ffff_ffff_ffff,
        is_roomy(centre.0 as int, margins.0),
        is_roomy(centre.1 as int, margins.1),
    ensures
        list@ == places_around((centre.0 as int, centre.1 as int), margins),
{
    let width: i128 = count_around(margins.0);
    let height: i128 = count_around(margins.1);
    let left: i128 = centre.0 - margins.0 as i128;
    let top: i128 = centre.1 - margins.1 as i128;
    let mut list: Vec<(isize, isize)> = Vec::new();
    let mut i: i128 = 0;
    assert(list@ =~= rectangle(left as int, top as int, 0, height as int));
    while i < width
        invariant
            0 <= i <= width,
            0 <= height <= 0x2_0000_0000_0000_0000,
            width <= 0x2_0000_0000_0000_0000,
            -0x1_ffff_ffff_ffff_ffff_ffff <= left <= 0x1_ffff_ffff_ffff_ffff_ffff,
            -0x1_ffff_ffff_ffff_ffff_ffff <= top <= 0x1_ffff_ffff_ffff_ffff_ffff,
            list@ == rectangle(left as int, top as int, i as int, height as int),
        decreases width - i,
    {
        let ghost before = list@;
        let mut j: i128 = 0;
        assert(list@ =~= before + column(left + i, top as int, 0));
        while j < height
            invariant
                0 <= i < width,
                0 <= j <= height,
                height <= 0x2_0000_0000_0000_0000,
                width <= 0x2_0000_0000_0000_0000,
                -0x1_ffff_ffff_ffff_ffff_ffff <= left <= 0x1_ffff_ffff_ffff_ffff_ffff,
                -0x1_ffff_ffff_ffff_ffff_ffff <= top <= 0x1_ffff_ffff_ffff_ffff_ffff,
                list@ == before + column(left + i, top as int, j as int),
            decreases height - j,
        {
            list.push(((left + i) as isize, (top + j) as isize));
            assert(list@ =~= before + column(left + i, top as int, j + 1));
            j += 1;
        }
        i += 1;
        assert(list@ =~= rectangle(left as int, top as int, i as int, height as int));
    }
    list
}

/// The name is one of the library's.
fn check_name(name: &str) -> (result: Result<(), InterfaceError>)
    ensures
        match result {
            Ok(_) => library::spec_named(name@) is Some,
            Err(error) => library::spec_named(name@) is None && error@ == InterfaceFailure::UnknownSpec(name@),
        },
{
    match published_spec_named(name) {
        Some(_) => Ok(()),
        None => Err(InterfaceError::UnknownSpec { name: name.to_owned() }),
    }
}

/// Loaded pieces, by reference.
fn refer<'a>(pieces: &'a Vec<LoadedPiece>) -> (refs: Vec<&'a LoadedPiece>)
    ensures
        refs@ == piece_refs(pieces@),
{
    let mut refs: Vec<&'a LoadedPiece> = Vec::new();
    let mut k: usize = 0;
    while k < pieces.len()
        invariant
            k <= pieces@.len(),
            refs@ == piece_refs(pieces@).take(k as int),
        decreases pieces.len() - k,
    {
        refs.push(&pieces[k]);
        assert(refs@ =~= piece_refs(pieces@).take(k + 1));
        k += 1;
    }
    assert(refs@ =~= piece_refs(pieces@));
    refs
}

/// Up to three loaded pieces with their candidates are a job.
fn make_job(
    label: String,
    pieces: Vec<LoadedPiece>,
    shared: Vec<SharedPort>,
    fixed: Vec<(isize, isize)>,
    centre: (i128, i128),
    margins: (isize, isize),
) -> (result: Result<CalibrationJob, InterfaceError>)
    requires
        pieces@.len() <= 3,
        forall|i: int| 0 <= i < pieces@.len() ==> (#[trigger] pieces@[i]).wf(),
        -0xffff_ffff_ffff_ffff_ffff <= centre.0 <= 0xffff_ffff_ffff_ffff_ffff,
        -0xffff_ffff_ffff_ffff_ffff <= centre.1 <= 0xffff_ffff_ffff_ffff_ffff,
    ensures
        if !is_roomy(centre.0 as int, margins.0) || !is_roomy(centre.1 as int, margins.1) {
            job_fails(result, InterfaceFailure::TooLarge)
        } else {
            result matches Ok(job) && job.wf() && job.label == label && job.pieces == pieces && job.shared == shared
                && job.fixed == fixed && job.candidates@ == places_around(
                (centre.0 as int, centre.1 as int),
                margins,
            )
        },
{
    if !has_room(centre.0, margins.0) || !has_room(centre.1, margins.1) {
        return Err(InterfaceError::TooLarge);
    }
    let candidates: Vec<(isize, isize)> = list_places(centre, margins);
    proof {
        let refs = piece_refs(pieces@);
        assert forall|i: int| 0 <= i < refs.len() implies (#[trigger] refs[i]).wf() by {
            assert(pieces@[i].wf());
        }
        discharge::lemma_few_ports(refs, composites::shared_models(shared@));
    }
    Ok(CalibrationJob { label, pieces, shared, fixed, candidates })
}

/// The job for a family of patterns side by side.
pub fn horizontal_job(files: &PatternFiles, family: &HorizontalMotifFamily, margins: (isize, isize)) -> (result: Result<
    CalibrationJob,
    InterfaceError,
>)
    requires
        files.wf(),
    ensures
        is_horizontal_job(result, files, *family, margins),
{
    let ghost names = across_names(*family);
    proof {
        reveal_with_fuel(first_unknown, 4);
        reveal_with_fuel(first_broken, 4);
        library::lemma_spec_named(names[0]);
        library::lemma_spec_named(names[1]);
        library::lemma_spec_named(names[2]);
        discharge::lemma_port_texts();
    }
    if let Err(error) = check_name(family.left_spec.as_str()) {
        return Err(error);
    }
    if let Err(error) = check_name(family.connector_name.as_str()) {
        return Err(error);
    }
    if let Err(error) = check_name(family.right_spec.as_str()) {
        return Err(error);
    }
    let left: LoadedPiece = match LoadedPiece::load(files, "left", family.left_spec.as_str()) {
        Ok(piece) => piece,
        Err(error) => {
            return Err(error);
        },
    };
    let connector: LoadedPiece = match LoadedPiece::load(files, "connector", family.connector_name.as_str()) {
        Ok(piece) => piece,
        Err(error) => {
            return Err(error);
        },
    };
    let right: LoadedPiece = match LoadedPiece::load(files, "right", family.right_spec.as_str()) {
        Ok(piece) => piece,
        Err(error) => {
            return Err(error);
        },
    };
    proof {
        discharge::lemma_piece_ends(&connector, files, "connector"@, names[1]);
        discharge::lemma_piece_ends(&right, files, "right"@, names[2]);
    }
    let east: CellCoord = match connector.anchor("E") {
        Ok(end) => end,
        Err(error) => {
            return Err(error);
        },
    };
    let west: CellCoord = match right.anchor("W") {
        Ok(end) => end,
        Err(error) => {
            return Err(error);
        },
    };
    let mut label: String = family.left_spec.clone();
    label.append(" + ");
    label.append(family.connector_name.as_str());
    label.append(" + ");
    label.append(family.right_spec.as_str());
    let mut shared: Vec<SharedPort> = Vec::new();
    shared.push(SharedPort::new("left", "E", "connector", "W"));
    shared.push(SharedPort::new("connector", "E", "right", "W"));
    let mut fixed: Vec<(isize, isize)> = Vec::new();
    fixed.push((0, 0));
    fixed.push((90, 0));
    let mut pieces: Vec<LoadedPiece> = Vec::new();
    pieces.push(left);
    pieces.push(connector);
    pieces.push(right);
    proof {
        assert(composites::shared_models(shared@) =~= discharge::shared_across());
        assert(fixed@ =~= seq![(0isize, 0isize), (90isize, 0isize)]);
        assert(are_loaded(pieces@, files, seq!["left"@, "connector"@, "right"@], names));
    }
    make_job(
        label,
        pieces,
        shared,
        fixed,
        (90 + east.x as i128 - west.x as i128, east.y as i128 - west.y as i128),
        margins,
    )
}

/// The job for a family of patterns below each other.
pub fn vertical_job(files: &PatternFiles, family: &VerticalMotifFamily, margins: (isize, isize)) -> (result: Result<
    CalibrationJob,
    InterfaceError,
>)
    requires
        files.wf(),
    ensures
        is_vertical_job(result, files, *family, margins),
{
    let ghost names = down_names(*family);
    proof {
        reveal_with_fuel(first_unknown, 3);
        reveal_with_fuel(first_broken, 3);
        library::lemma_spec_named(names[0]);
        library::lemma_spec_named(names[1]);
        discharge::lemma_port_texts();
    }
    if let Err(error) = check_name(family.top_spec.as_str()) {
        return Err(error);
    }
    if let Err(error) = check_name(family.bottom_spec.as_str()) {
        return Err(error);
    }
    let top: LoadedPiece = match LoadedPiece::load(files, "top", family.top_spec.as_str()) {
        Ok(piece) => piece,
        Err(error) => {
            return Err(error);
        },
    };
    let bottom: LoadedPiece = match LoadedPiece::load(files, "bottom", family.bottom_spec.as_str()) {
        Ok(piece) => piece,
        Err(error) => {
            return Err(error);
        },
    };
    proof {
        discharge::lemma_piece_ends(&top, files, "top"@, names[0]);
        discharge::lemma_piece_ends(&bottom, files, "bottom"@, names[1]);
    }
    let south: CellCoord = match top.anchor("S") {
        Ok(end) => end,
        Err(error) => {
            return Err(error);
        },
    };
    let north: CellCoord = match bottom.anchor("N") {
        Ok(end) => end,
        Err(error) => {
            return Err(error);
        },
    };
    let mut label: String = family.top_spec.clone();
    label.append(" / ");
    label.append(family.bottom_spec.as_str());
    let mut shared: Vec<SharedPort> = Vec::new();
    shared.push(SharedPort::new("top", "S", "bottom", "N"));
    let mut fixed: Vec<(isize, isize)> = Vec::new();
    fixed.push((0, 0));
    let mut pieces: Vec<LoadedPiece> = Vec::new();
    pieces.push(top);
    pieces.push(bottom);
    proof {
        assert(composites::shared_models(shared@) =~= discharge::shared_down());
        assert(fixed@ =~= seq![(0isize, 0isize)]);
        assert(are_loaded(pieces@, files, seq!["top"@, "bottom"@], names));
    }
    make_job(
        label,
        pieces,
        shared,
        fixed,
        (south.x as i128 - north.x as i128, south.y as i128 - north.y as i128),
        margins,
    )
}

/// The outcome at a candidate of a job.
pub open spec fn is_job_outcome(timeout: Option<u64>, job: CalibrationJob, k: int, outcome: Outcome) -> bool {
    let refs = piece_refs(job.pieces@);
    let shared = composites::shared_models(job.shared@);
    exists|relation: CompositeRelation| #[trigger]
        composites::is_composite_relation(relation, composites::parts_of(refs), shared)
            && discharge::is_candidate_outcome(
            timeout,
            outcome,
            "search:"@ + job.label@,
            refs,
            job.fixed@,
            job.candidates@[k],
            shared,
            relation,
        )
}

/// One more candidate was looked at: a good one is added to the matches, and what cannot be
/// tested ends the search.
pub open spec fn is_step(
    timeout: Option<u64>,
    job: CalibrationJob,
    before: CalibrationState,
    after: CalibrationState,
    result: Result<(), InterfaceError>,
) -> bool {
    &&& after.checked == before.checked + 1
    &&& exists|outcome: Outcome| #[trigger]
        is_job_outcome(timeout, job, before.checked as int, outcome) && match outcome {
            Err(error) => result == Err::<(), InterfaceError>(error) && after.matches@ == before.matches@,
            Ok(report) => result is Ok && if discharge::is_good(outcome) {
                &&& after.matches@.len() == before.matches@.len() + 1
                &&& after.matches@.drop_last() == before.matches@
                &&& after.matches@.last().relation_report == report
                &&& discharge::is_place(
                    after.matches@.last().placement,
                    piece_refs(job.pieces@),
                    job.fixed@,
                    job.candidates@[before.checked as int],
                )
            } else {
                after.matches@ == before.matches@
            },
        }
}

impl CalibrationState {
    /// The start of a search.
    pub fn new() -> (state: Self)
        ensures
            state.checked == 0,
            state.matches@.len() == 0,
    {
        Self { checked: 0, matches: Vec::new() }
    }
}

impl CalibrationJob {
    /// Whether a search is at its end: there are enough matches, or no candidate is left.
    pub fn is_done(&self, state: &CalibrationState, max_results: usize) -> (done: bool)
        ensures
            done == (state.checked >= self.candidates@.len() || state.matches@.len() >= max_results),
    {
        state.checked >= self.candidates.len() || state.matches.len() >= max_results
    }

    /// Looks at the next candidate.
    pub fn step(&self, tester: &GadgetVerifier, state: &mut CalibrationState) -> (result: Result<(), InterfaceError>)
        requires
            self.wf(),
            old(state).checked < self.candidates@.len(),
        ensures
            is_step(tester.configuration().timeout, *self, *old(state), *final(state), result),
    {
        let ghost before = *state;
        let k: usize = state.checked;
        let pieces: Vec<&LoadedPiece> = refer(&self.pieces);
        let relation: CompositeRelation = composite_relation(&pieces, &self.shared);
        let placement: InterfacePlacement = make_placement(&pieces, &self.fixed, self.candidates[k]);
        let mut name: String = "search:".to_owned();
        name.append(self.label.as_str());
        let outcome: Outcome = verify_composite_family(
            tester,
            name.as_str(),
            &pieces,
            &placement,
            &self.shared,
            &relation,
        );
        let ghost seen = outcome;
        assert(is_job_outcome(tester.configuration().timeout, *self, k as int, seen));
        assert(k < self.candidates.len());
        state.checked = k + 1;
        match outcome {
            Err(error) => Err(error),
            Ok(relation_report) => {
                if relation_report.allowed_assignments_hold && relation_report.forbidden_assignments_hold {
                    state.matches.push(CalibrationMatch { placement, relation_report });
                    assert(state.matches@.drop_last() =~= before.matches@);
                }
                Ok(())
            },
        }
    }
}

} // verus!
