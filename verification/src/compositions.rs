//! The search for places at which patterns compose to another.

use crate::bits;
use crate::encoding;
use crate::gadget_verifier::{GadgetPattern, GadgetVerifier};
use crate::grid;
use crate::library;
use crate::library::{published_spec_named, PublishedSpec, SpecModel};
use crate::published;
use crate::published::{compose_published_patterns, load_published_gadget, PatternError, PatternFailure, PatternFiles, Placement, PublishedPattern, is_composable};
use crate::relations;
use crate::relations::{verify_published_pattern, PublishedError, PublishedVerificationReport};
use crate::wholes;
use vstd::prelude::*;

verus! {

/// A pattern with the places that it may have.
#[derive(Debug, Clone, PartialEq, Eq)]
pub struct CompositionSearchPiece {
    pub spec_name: String,
    pub x_values: Vec<isize>,
    pub y_values: Vec<isize>,
}

impl CompositionSearchPiece {
    /// A pattern at a place.
    pub fn fixed(spec_name: &str, x: isize, y: isize) -> (piece: Self)
        ensures
            piece.spec_name@ == spec_name@,
            piece.x_values@ == seq![x],
            piece.y_values@ == seq![y],
    {
        let piece: CompositionSearchPiece = CompositionSearchPiece {
            spec_name: spec_name.to_owned(),
            x_values: vec![x],
            y_values: vec![y],
        };
        assert(piece.x_values@ =~= seq![x]);
        assert(piece.y_values@ =~= seq![y]);
        piece
    }

    /// A pattern with the columns and the rows that it may have.
    pub fn with_options(spec_name: &str, x_values: Vec<isize>, y_values: Vec<isize>) -> (piece: Self)
        ensures
            piece.spec_name@ == spec_name@,
            piece.x_values == x_values,
            piece.y_values == y_values,
    {
        CompositionSearchPiece { spec_name: spec_name.to_owned(), x_values, y_values }
    }
}

/// The number of places that a piece may have.
pub open spec fn place_total(piece: CompositionSearchPiece) -> nat {
    piece.x_values@.len() * piece.y_values@.len()
}

/// The number of candidates that the first `k` pieces make.
pub open spec fn candidate_total(pieces: Seq<CompositionSearchPiece>, k: nat) -> nat
    decreases k,
{
    if k == 0 {
        1
    } else {
        candidate_total(pieces, (k - 1) as nat) * place_total(pieces[k - 1])
    }
}

/// A number that fits, or else the largest that does.
pub open spec fn saturated(n: nat) -> nat {
    if n <= usize::MAX {
        n
    } else {
        usize::MAX as nat
    }
}

fn saturating_product(a: usize, b: usize) -> (product: usize)
    ensures
        product == saturated((a * b) as nat),
{
    match a.checked_mul(b) {
        Some(product) => product,
        None => usize::MAX,
    }
}

/// The number of candidates, or the largest number that fits.
pub fn count_composition_candidates(pieces: &Vec<CompositionSearchPiece>) -> (total: usize)
    ensures
        total == saturated(candidate_total(pieces@, pieces@.len())),
{
    let mut total: usize = 1;
    let mut k: usize = 0;
    while k < pieces.len()
        invariant
            k <= pieces@.len(),
            total == saturated(candidate_total(pieces@, k as nat)),
        decreases pieces.len() - k,
    {
        proof {
            lemma_saturated_product(candidate_total(pieces@, k as nat), place_total(pieces@[k as int]));
        }
        total = saturating_product(total, saturating_product(pieces[k].x_values.len(), pieces[k].y_values.len()));
        k += 1;
    }
    total
}

proof fn lemma_saturated_product(a: nat, b: nat)
    ensures
        saturated(saturated(a) * saturated(b)) == saturated(a * b),
{
    let top = usize::MAX as nat;
    if a == 0 || b == 0 {
        assert(a * b == 0 && saturated(a) * saturated(b) == 0) by (nonlinear_arith)
            requires
                a == 0 || b == 0,
                a == 0 ==> saturated(a) == 0,
                b == 0 ==> saturated(b) == 0,
        ;
    } else if a > top {
        assert(a * b >= a) by (nonlinear_arith)
            requires
                b >= 1,
                a >= 0,
        ;
        let c = saturated(b);
        assert(top * c >= top) by (nonlinear_arith)
            requires
                c >= 1,
                top >= 0,
        ;
    } else if b > top {
        assert(a * b >= b) by (nonlinear_arith)
            requires
                a >= 1,
                b >= 0,
        ;
        let c = saturated(a);
        assert(c * top >= top) by (nonlinear_arith)
            requires
                c >= 1,
                top >= 0,
        ;
    }
}

/// A place that a piece may have: the rows of the first column first.
pub open spec fn option_at(piece: CompositionSearchPiece, n: int) -> (isize, isize) {
    (
        piece.x_values@[n / (piece.y_values@.len() as int)],
        piece.y_values@[n % (piece.y_values@.len() as int)],
    )
}

/// A candidate: the places of the first `k` pieces, of which the last changes first.
pub open spec fn candidate_at(pieces: Seq<CompositionSearchPiece>, k: nat, n: int) -> Seq<(isize, isize)>
    decreases k,
{
    if k == 0 {
        Seq::empty()
    } else {
        let total = place_total(pieces[k - 1]) as int;
        candidate_at(pieces, (k - 1) as nat, n / total).push(option_at(pieces[k - 1], n % total))
    }
}

/// Why a search stops.
#[derive(Debug)]
pub enum CompositionError {
    /// A pattern cannot be had.
    Pattern { error: PatternError },
    /// A composed pattern is too small, or too large, to be examined.
    Unfit,
    /// A composed pattern cannot be put to the test.
    Test { reason: PublishedError },
}

impl CompositionError {
    /// The message of the error.
    pub open spec fn message(&self) -> Seq<char> {
        match *self {
            CompositionError::Pattern { error } => published::failure_text(error@),
            CompositionError::Unfit => "The composed pattern is too small or too large to be examined"@,
            CompositionError::Test { reason } => reason.message(),
        }
    }

    /// The message of the error.
    pub fn to_string(&self) -> (message: String)
        ensures
            message@ == self.message(),
    {
        match self {
            CompositionError::Pattern { error } => error.to_string(),
            CompositionError::Unfit => "The composed pattern is too small or too large to be examined".to_owned(),
            CompositionError::Test { reason } => reason.to_string(),
        }
    }
}

/// Places at which patterns compose to another, and the report on it.
#[derive(Debug, Clone)]
pub struct CompositionSearchResult {
    pub placements: Vec<(String, isize, isize)>,
    pub report: PublishedVerificationReport,
}

/// How far a search has come.
#[derive(Debug, Clone)]
pub struct CompositionSearchProgress {
    pub checked_candidates: usize,
    pub total_candidates: usize,
    pub matches_found: usize,
    pub current_candidate: Vec<(String, isize, isize)>,
}

/// What became of a candidate: the report, where it composes to the wanted pattern.
pub type CandidateOutcome = Result<Option<PublishedVerificationReport>, CompositionError>;

/// The patterns at their places.
pub open spec fn placed_patterns(patterns: Seq<PublishedPattern>, candidate: Seq<(isize, isize)>) -> Seq<
    Placement<'static>,
> {
    Seq::new(patterns.len(), |i: int| (&patterns[i], candidate[i].0, candidate[i].1))
}

/// The predecessors of the pattern can be looked for.
pub open spec fn is_examinable(pattern: &PublishedPattern) -> bool {
    &&& pattern.width > 0
    &&& pattern.height > 0
    &&& encoding::place_count(pattern.width as int, pattern.height as int) < i32::MAX
}

/// What becomes of a composed pattern that is put to the test.
pub open spec fn is_tested(
    timeout: Option<u64>,
    outcome: CandidateOutcome,
    composed: &PublishedPattern,
    spec: SpecModel,
) -> bool {
    exists|gadget: GadgetPattern, verdict: Result<PublishedVerificationReport, PublishedError>|
        published::is_gadget_of(&gadget, composed, "search:"@ + spec.name) && #[trigger] relations::is_verification_result(
            timeout,
            verdict,
            composed,
            &gadget,
            spec,
        ) && match verdict {
            Err(reason) => outcome == Err::<Option<PublishedVerificationReport>, CompositionError>(
                CompositionError::Test { reason },
            ),
            Ok(report) => outcome == Ok::<Option<PublishedVerificationReport>, CompositionError>(
                if report.succeeds() {
                    Some(report)
                } else {
                    None
                },
            ),
        }
}

/// What becomes of a composed pattern.
///
/// One of another size is passed over. So is one whose wires have other phases, if its edges can
/// be looked at. What is left is put to the test, if that can be done.
pub open spec fn is_judged(
    timeout: Option<u64>,
    outcome: CandidateOutcome,
    composed: &PublishedPattern,
    spec: SpecModel,
) -> bool {
    if !relations::size_fits(spec, composed) {
        outcome == Ok::<Option<PublishedVerificationReport>, CompositionError>(None)
    } else if !composed.scannable() {
        outcome == Err::<Option<PublishedVerificationReport>, CompositionError>(CompositionError::Unfit)
    } else if !relations::alignment_fits(spec, composed) {
        outcome == Ok::<Option<PublishedVerificationReport>, CompositionError>(None)
    } else if !is_examinable(composed) {
        outcome == Err::<Option<PublishedVerificationReport>, CompositionError>(CompositionError::Unfit)
    } else {
        is_tested(timeout, outcome, composed, spec)
    }
}

/// What becomes of a candidate.
pub open spec fn is_candidate_outcome(
    timeout: Option<u64>,
    outcome: CandidateOutcome,
    patterns: Seq<PublishedPattern>,
    candidate: Seq<(isize, isize)>,
    spec: SpecModel,
) -> bool {
    if !published::composable(placed_patterns(patterns, candidate)) {
        outcome == Err::<Option<PublishedVerificationReport>, CompositionError>(CompositionError::Unfit)
    } else {
        exists|composed: PublishedPattern| #[trigger]
            published::is_composition(&composed, placed_patterns(patterns, candidate)) && is_judged(
                timeout,
                outcome,
                &composed,
                spec,
            )
    }
}

/// The candidate is a match.
pub open spec fn is_match(outcome: CandidateOutcome) -> bool {
    outcome matches Ok(Some(_))
}

/// The numbers of the matches among the first `k` candidates.
pub open spec fn matches_among(outcomes: Seq<CandidateOutcome>, k: nat) -> Seq<int>
    decreases k,
{
    if k == 0 {
        Seq::empty()
    } else if is_match(outcomes[k - 1]) {
        matches_among(outcomes, (k - 1) as nat).push(k - 1)
    } else {
        matches_among(outcomes, (k - 1) as nat)
    }
}

/// The names of pieces with the places of a candidate.
pub open spec fn are_named_places(
    list: Seq<(String, isize, isize)>,
    pieces: Seq<CompositionSearchPiece>,
    candidate: Seq<(isize, isize)>,
) -> bool {
    &&& list.len() == pieces.len()
    &&& forall|i: int|
        0 <= i < list.len() ==> (#[trigger] list[i]).0@ == pieces[i].spec_name@ && (list[i].1, list[i].2)
            == candidate[i]
}

/// The results are the matches.
pub open spec fn are_results(
    results: Seq<CompositionSearchResult>,
    pieces: Seq<CompositionSearchPiece>,
    outcomes: Seq<CandidateOutcome>,
    k: nat,
) -> bool {
    let found = matches_among(outcomes, k);
    &&& results.len() == found.len()
    &&& forall|i: int|
        0 <= i < results.len() ==> are_named_places(
            (#[trigger] results[i]).placements@,
            pieces,
            candidate_at(pieces, pieces.len(), found[i]),
        ) && outcomes[found[i]] == Ok::<Option<PublishedVerificationReport>, CompositionError>(
            Some(results[i].report),
        )
}

/// What is reported of a candidate.
pub open spec fn is_report(
    progress: CompositionSearchProgress,
    pieces: Seq<CompositionSearchPiece>,
    checked: nat,
    found: nat,
) -> bool {
    &&& progress.checked_candidates == checked
    &&& progress.total_candidates == saturated(candidate_total(pieces, pieces.len()))
    &&& progress.matches_found == found
    &&& are_named_places(
        progress.current_candidate@,
        pieces,
        candidate_at(pieces, pieces.len(), checked - 1),
    )
}

/// The reports on the first `k` candidates: one before each is examined, and one after each
/// match.
pub open spec fn are_reports(
    reports: Seq<CompositionSearchProgress>,
    pieces: Seq<CompositionSearchPiece>,
    outcomes: Seq<CandidateOutcome>,
    k: nat,
) -> bool
    decreases k,
{
    if k == 0 {
        reports.len() == 0
    } else {
        let before = matches_among(outcomes, (k - 1) as nat).len();
        if is_match(outcomes[k - 1]) {
            &&& reports.len() >= 2
            &&& is_report(reports[reports.len() - 2], pieces, k, before)
            &&& is_report(reports[reports.len() - 1], pieces, k, before + 1)
            &&& are_reports(reports.take(reports.len() - 2), pieces, outcomes, (k - 1) as nat)
        } else {
            &&& reports.len() >= 1
            &&& is_report(reports[reports.len() - 1], pieces, k, before)
            &&& are_reports(reports.take(reports.len() - 1), pieces, outcomes, (k - 1) as nat)
        }
    }
}

/// What is wrong with the first of the first `k` patterns that cannot be had.
pub open spec fn first_missing(files: &PatternFiles, pieces: Seq<CompositionSearchPiece>, k: nat) -> Option<
    PatternFailure,
>
    decreases k,
{
    if k == 0 {
        None
    } else {
        match first_missing(files, pieces, (k - 1) as nat) {
            Some(failure) => Some(failure),
            None => pattern_failure(files, pieces[k - 1].spec_name@),
        }
    }
}

/// What is wrong with the pattern of a name, if anything.
pub open spec fn pattern_failure(files: &PatternFiles, name: Seq<char>) -> Option<PatternFailure> {
    match library::spec_named(name) {
        None => Some(PatternFailure::UnknownSpec(name)),
        Some(spec) => match published::pattern_in_files(files, spec.path) {
            Err(failure) => Some(failure),
            Ok(rows) => match grid::grid_of(published::alive_rows(rows)) {
                Err(reason) => Some(PatternFailure::NotAGrid(reason)),
                Ok(_) => None,
            },
        },
    }
}

/// The patterns are those of the pieces.
pub open spec fn are_patterns(
    patterns: Seq<PublishedPattern>,
    files: &PatternFiles,
    pieces: Seq<CompositionSearchPiece>,
) -> bool {
    &&& patterns.len() == pieces.len()
    &&& forall|i: int|
        0 <= i < patterns.len() ==> (#[trigger] patterns[i]).wf() && crate::stock::rows_named(
            files,
            pieces[i].spec_name@,
        ) == Some(patterns[i]@)
}

/// The candidates are examined one after the other, until there are enough matches, or one
/// cannot be examined, or none is left.
pub open spec fn is_search(
    timeout: Option<u64>,
    pieces: Seq<CompositionSearchPiece>,
    patterns: Seq<PublishedPattern>,
    spec: SpecModel,
    max_results: usize,
    outcomes: Seq<CandidateOutcome>,
    result: Result<Vec<CompositionSearchResult>, CompositionError>,
) -> bool {
    let n = outcomes.len();
    &&& n <= candidate_total(pieces, pieces.len())
    &&& forall|i: int|
        0 <= i < n ==> is_candidate_outcome(
            timeout,
            #[trigger] outcomes[i],
            patterns,
            candidate_at(pieces, pieces.len(), i),
            spec,
        )
    &&& forall|i: int| 0 <= i < n - 1 ==> #[trigger] outcomes[i] is Ok
    &&& n > 0 ==> matches_among(outcomes, (n - 1) as nat).len() < max_results
    &&& match result {
        Err(error) => n > 0 && outcomes[n - 1] == Err::<Option<PublishedVerificationReport>, CompositionError>(error),
        Ok(results) => {
            &&& n > 0 ==> outcomes[n - 1] is Ok
            &&& n == candidate_total(pieces, pieces.len()) || matches_among(outcomes, n).len() >= max_results
            &&& are_results(results@, pieces, outcomes, n)
        },
    }
}

/// The result of a search, and what it has reported.
pub open spec fn is_search_result(
    timeout: Option<u64>,
    files: &PatternFiles,
    pieces: Seq<CompositionSearchPiece>,
    spec: SpecModel,
    max_results: usize,
    result: Result<Vec<CompositionSearchResult>, CompositionError>,
    reports: Seq<CompositionSearchProgress>,
) -> bool {
    if pieces.len() == 0 {
        reports.len() == 0 && fails_with(result, PatternFailure::NoPieces)
    } else {
        match first_missing(files, pieces, pieces.len()) {
            Some(failure) => reports.len() == 0 && fails_with(result, failure),
            None => exists|patterns: Seq<PublishedPattern>, outcomes: Seq<CandidateOutcome>|
                are_patterns(patterns, files, pieces) && #[trigger] is_search(
                    timeout,
                    pieces,
                    patterns,
                    spec,
                    max_results,
                    outcomes,
                    result,
                ) && are_reports(reports, pieces, outcomes, outcomes.len()),
        }
    }
}

/// A pattern cannot be had.
pub open spec fn fails_with(
    result: Result<Vec<CompositionSearchResult>, CompositionError>,
    failure: PatternFailure,
) -> bool {
    result matches Err(CompositionError::Pattern { error }) && error@ == failure
}

proof fn lemma_total_positive(pieces: Seq<CompositionSearchPiece>, k: nat, n: int)
    requires
        0 < k <= pieces.len(),
        0 <= n < candidate_total(pieces, k),
    ensures
        place_total(pieces[k - 1]) > 0,
        pieces[k - 1].y_values@.len() > 0,
        0 <= n / (place_total(pieces[k - 1]) as int) < candidate_total(pieces, (k - 1) as nat),
        0 <= n % (place_total(pieces[k - 1]) as int) < place_total(pieces[k - 1]),
        0 <= (n % (place_total(pieces[k - 1]) as int)) / (pieces[k - 1].y_values@.len() as int)
            < pieces[k - 1].x_values@.len(),
        0 <= (n % (place_total(pieces[k - 1]) as int)) % (pieces[k - 1].y_values@.len() as int)
            < pieces[k - 1].y_values@.len(),
{
    let before = candidate_total(pieces, (k - 1) as nat) as int;
    let c = place_total(pieces[k - 1]) as int;
    let nx = pieces[k - 1].x_values@.len() as int;
    let ny = pieces[k - 1].y_values@.len() as int;
    assert(c > 0) by (nonlinear_arith)
        requires
            n >= 0,
            n < before * c,
            before >= 0,
            c >= 0,
    ;
    assert(ny > 0) by (nonlinear_arith)
        requires
            c > 0,
            c == nx * ny,
            ny >= 0,
    ;
    assert(0 <= n / c < before && 0 <= n % c < c) by (nonlinear_arith)
        requires
            0 <= n < before * c,
            c > 0,
    ;
    let m = n % c;
    assert(0 <= m / ny < nx && 0 <= m % ny < ny) by (nonlinear_arith)
        requires
            0 <= m < nx * ny,
            ny > 0,
    ;
}

/// The candidate with a number: the places of the first `k` pieces.
fn nth_candidate(pieces: &Vec<CompositionSearchPiece>, k: usize, n: usize) -> (candidate: Vec<(isize, isize)>)
    requires
        k <= pieces@.len(),
        n < candidate_total(pieces@, k as nat),
    ensures
        candidate@ == candidate_at(pieces@, k as nat, n as int),
        candidate@.len() == k,
    decreases k,
{
    if k == 0 {
        return Vec::new();
    }
    proof {
        lemma_total_positive(pieces@, k as nat, n as int);
    }
    let piece: &CompositionSearchPiece = &pieces[k - 1];
    let columns: usize = piece.x_values.len();
    let rows: usize = piece.y_values.len();
    let ghost c = place_total(pieces@[k - 1]) as int;
    match columns.checked_mul(rows) {
        Some(total) => {
            let mut candidate: Vec<(isize, isize)> = nth_candidate(pieces, k - 1, n / total);
            let m: usize = n % total;
            candidate.push((piece.x_values[m / rows], piece.y_values[m % rows]));
            candidate
        },
        None => {
            assert(n < c);
            assert(n as int / c == 0 && n as int % c == n) by (nonlinear_arith)
                requires
                    0 <= n < c,
            ;
            let mut candidate: Vec<(isize, isize)> = nth_candidate(pieces, k - 1, 0);
            candidate.push((piece.x_values[n / rows], piece.y_values[n % rows]));
            candidate
        },
    }
}

/// The names of pieces with the places of a candidate.
fn named_places(pieces: &Vec<CompositionSearchPiece>, candidate: &Vec<(isize, isize)>) -> (list: Vec<
    (String, isize, isize),
>)
    requires
        candidate@.len() == pieces@.len(),
    ensures
        are_named_places(list@, pieces@, candidate@),
{
    let mut list: Vec<(String, isize, isize)> = Vec::new();
    let mut k: usize = 0;
    while k < pieces.len()
        invariant
            k <= pieces@.len(),
            candidate@.len() == pieces@.len(),
            list@.len() == k,
            forall|i: int|
                0 <= i < k ==> (#[trigger] list@[i]).0@ == pieces@[i].spec_name@ && (list@[i].1, list@[i].2)
                    == candidate@[i],
        decreases pieces.len() - k,
    {
        list.push((pieces[k].spec_name.as_str().to_owned(), candidate[k].0, candidate[k].1));
        k += 1;
    }
    list
}

proof fn lemma_missing_first(files: &PatternFiles, pieces: Seq<CompositionSearchPiece>, j: nat, k: nat)
    requires
        j <= k,
        first_missing(files, pieces, j) is Some,
    ensures
        first_missing(files, pieces, k) == first_missing(files, pieces, j),
    decreases k,
{
    if j < k {
        lemma_missing_first(files, pieces, j, (k - 1) as nat);
    }
}

/// Reads the patterns of the pieces.
fn load_patterns(files: &PatternFiles, pieces: &Vec<CompositionSearchPiece>) -> (result: Result<
    Vec<PublishedPattern>,
    CompositionError,
>)
    requires
        files.wf(),
    ensures
        match first_missing(files, pieces@, pieces@.len()) {
            Some(failure) => result matches Err(CompositionError::Pattern { error }) && error@ == failure,
            None => result matches Ok(patterns) && are_patterns(patterns@, files, pieces@),
        },
{
    let mut patterns: Vec<PublishedPattern> = Vec::new();
    let mut k: usize = 0;
    while k < pieces.len()
        invariant
            k <= pieces@.len(),
            files.wf(),
            first_missing(files, pieces@, k as nat) is None,
            patterns@.len() == k,
            forall|i: int|
                0 <= i < k ==> (#[trigger] patterns@[i]).wf() && crate::stock::rows_named(
                    files,
                    pieces@[i].spec_name@,
                ) == Some(patterns@[i]@),
        decreases pieces.len() - k,
    {
        let name: &str = pieces[k].spec_name.as_str();
        let spec: PublishedSpec = match published_spec_named(name) {
            Some(spec) => spec,
            None => {
                proof {
                    lemma_missing_first(files, pieces@, (k + 1) as nat, pieces@.len());
                }
                return Err(CompositionError::Pattern { error: PatternError::UnknownSpec { name: name.to_owned() } });
            },
        };
        match load_published_gadget(files, &spec) {
            Ok(loaded) => {
                patterns.push(loaded.0);
            },
            Err(error) => {
                proof {
                    lemma_missing_first(files, pieces@, (k + 1) as nat, pieces@.len());
                }
                return Err(CompositionError::Pattern { error });
            },
        }
        k += 1;
    }
    Ok(patterns)
}

/// Whether the predecessors of a pattern can be looked for.
fn can_examine(pattern: &PublishedPattern) -> (result: bool)
    requires
        pattern.wf(),
    ensures
        result == is_examinable(pattern),
{
    if pattern.width == 0 || pattern.height == 0 {
        return false;
    }
    if pattern.width > 0x3fff_ffff || pattern.height > 0x3fff_ffff {
        assert((pattern.width + 2) * (pattern.height + 2) >= 0x7fff_ffff) by (nonlinear_arith)
            requires
                pattern.width > 0,
                pattern.height > 0,
                pattern.width > 0x3fff_ffff || pattern.height > 0x3fff_ffff,
        ;
        return false;
    }
    assert(0 <= (pattern.width + 2) * (pattern.height + 2) <= 0x7fff_ffff_ffff_ffff) by (nonlinear_arith)
        requires
            pattern.width <= 0x3fff_ffff,
            pattern.height <= 0x3fff_ffff,
    ;
    (pattern.width as i64 + 2) * (pattern.height as i64 + 2) < 0x7fff_ffff
}

/// Composes a candidate, and puts the composed pattern to the test.
fn examine(
    tester: &GadgetVerifier,
    patterns: &Vec<PublishedPattern>,
    candidate: &Vec<(isize, isize)>,
    spec: &PublishedSpec,
) -> (outcome: CandidateOutcome)
    requires
        patterns@.len() > 0,
        patterns@.len() == candidate@.len(),
        forall|i: int| 0 <= i < patterns@.len() ==> (#[trigger] patterns@[i]).wf(),
        bits::two_to(spec@.wires.len()) <= usize::MAX,
        relations::rules_countable(spec@),
    ensures
        is_candidate_outcome(tester.configuration().timeout, outcome, patterns@, candidate@, spec@),
{
    let ghost all = placed_patterns(patterns@, candidate@);
    let mut raw: Vec<(&PublishedPattern, isize, isize)> = Vec::new();
    let mut k: usize = 0;
    while k < patterns.len()
        invariant
            k <= patterns@.len(),
            patterns@.len() == candidate@.len(),
            all == placed_patterns(patterns@, candidate@),
            raw@ == all.take(k as int),
        decreases patterns.len() - k,
    {
        raw.push((&patterns[k], candidate[k].0, candidate[k].1));
        assert(raw@ =~= all.take(k + 1));
        k += 1;
    }
    assert(raw@ =~= all);
    assert forall|i: int| 0 <= i < raw@.len() implies (#[trigger] raw@[i]).0.wf() by {
        assert(patterns@[i].wf());
    }
    if !is_composable(raw.as_slice()) {
        return Err(CompositionError::Unfit);
    }
    let composed: PublishedPattern = match compose_published_patterns(raw.as_slice()) {
        Ok(composed) => composed,
        Err(error) => {
            return Err(CompositionError::Pattern { error });
        },
    };
    let outcome: CandidateOutcome = judge(tester, &composed, spec);
    assert(published::is_composition(&composed, all) && is_judged(tester.configuration().timeout, outcome, &composed, spec@));
    outcome
}

/// Puts a composed pattern to the test.
fn judge(tester: &GadgetVerifier, composed: &PublishedPattern, spec: &PublishedSpec) -> (outcome: CandidateOutcome)
    requires
        composed.wf(),
        bits::two_to(spec@.wires.len()) <= usize::MAX,
        relations::rules_countable(spec@),
    ensures
        is_judged(tester.configuration().timeout, outcome, composed, spec@),
{
    if let Some(size) = spec.size {
        if composed.width != size.0 || composed.height != size.1 {
            return Ok(None);
        }
    }
    if !composed.is_scannable() {
        return Err(CompositionError::Unfit);
    }
    if let Some(align) = spec.align {
        let own: library::Alignment = composed.phase_alignment();
        if !(own.0 == align.0 && own.1 == align.1 && own.2 == align.2 && own.3 == align.3) {
            return Ok(None);
        }
    }
    if !can_examine(composed) {
        return Err(CompositionError::Unfit);
    }
    let mut name: String = "search:".to_owned();
    name.append(spec.name);
    proof {
        let rows = published::alive_rows(composed@);
        assert(composed@.len() == composed.height);
        assert(composed@[0].len() == composed.width);
        assert(rows[0].len() == composed.width);
        assert(grid::rectangular(rows, rows[0].len())) by {
            assert forall|y: int| 0 <= y < rows.len() implies (#[trigger] rows[y]).len() == rows[0].len() by {
                assert(composed@[y].len() == composed.width);
            }
        }
    }
    let gadget: GadgetPattern = match composed.to_gadget_pattern(name.as_str()) {
        Ok(gadget) => gadget,
        Err(error) => {
            return Err(CompositionError::Pattern { error });
        },
    };
    let verdict: Result<PublishedVerificationReport, PublishedError> = verify_published_pattern(
        tester,
        composed,
        &gadget,
        spec,
    );
    let ghost seen = verdict;
    assert(relations::is_verification_result(tester.configuration().timeout, seen, composed, &gadget, spec@));
    match verdict {
        Ok(report) => {
            if report.is_success() {
                Ok(Some(report))
            } else {
                Ok(None)
            }
        },
        Err(reason) => Err(CompositionError::Test { reason }),
    }
}

proof fn lemma_reports_extend(
    reports: Seq<CompositionSearchProgress>,
    pieces: Seq<CompositionSearchPiece>,
    outcomes: Seq<CandidateOutcome>,
    more: Seq<CandidateOutcome>,
    k: nat,
)
    requires
        k <= outcomes.len(),
        k <= more.len(),
        forall|i: int| 0 <= i < k ==> #[trigger] outcomes[i] == more[i],
        are_reports(reports, pieces, outcomes, k),
    ensures
        are_reports(reports, pieces, more, k),
        matches_among(more, k) == matches_among(outcomes, k),
    decreases k,
{
    if k > 0 {
        assert(outcomes[k - 1] == more[k - 1]);
        lemma_matches_extend(outcomes, more, (k - 1) as nat);
        if is_match(outcomes[k - 1]) {
            lemma_reports_extend(reports.take(reports.len() - 2), pieces, outcomes, more, (k - 1) as nat);
        } else {
            lemma_reports_extend(reports.take(reports.len() - 1), pieces, outcomes, more, (k - 1) as nat);
        }
    }
}

proof fn lemma_matches_extend(outcomes: Seq<CandidateOutcome>, more: Seq<CandidateOutcome>, k: nat)
    requires
        k <= outcomes.len(),
        k <= more.len(),
        forall|i: int| 0 <= i < k ==> #[trigger] outcomes[i] == more[i],
    ensures
        matches_among(more, k) == matches_among(outcomes, k),
    decreases k,
{
    if k > 0 {
        assert(outcomes[k - 1] == more[k - 1]);
        lemma_matches_extend(outcomes, more, (k - 1) as nat);
    }
}

proof fn lemma_matches_inside(outcomes: Seq<CandidateOutcome>, k: nat)
    ensures
        matches_among(outcomes, k).len() <= k,
        forall|i: int| 0 <= i < matches_among(outcomes, k).len() ==> 0 <= #[trigger] matches_among(outcomes, k)[i] < k,
    decreases k,
{
    if k > 0 {
        lemma_matches_inside(outcomes, (k - 1) as nat);
    }
}

/// The state of a search after `k` candidates.
spec fn is_state(
    timeout: Option<u64>,
    pieces: Seq<CompositionSearchPiece>,
    patterns: Seq<PublishedPattern>,
    spec: SpecModel,
    outcomes: Seq<CandidateOutcome>,
    results: Seq<CompositionSearchResult>,
    reports: Seq<CompositionSearchProgress>,
    k: nat,
) -> bool {
    &&& outcomes.len() == k
    &&& forall|i: int|
        0 <= i < k ==> #[trigger] outcomes[i] is Ok && is_candidate_outcome(
            timeout,
            outcomes[i],
            patterns,
            candidate_at(pieces, pieces.len(), i),
            spec,
        )
    &&& are_results(results, pieces, outcomes, k)
    &&& are_reports(reports, pieces, outcomes, k)
}

/// Looks for places at which patterns compose to another, and reports on the way.
pub fn search_composed_pattern_positions_with_progress(
    tester: &GadgetVerifier,
    files: &PatternFiles,
    pieces: &Vec<CompositionSearchPiece>,
    target_spec: &PublishedSpec,
    max_results: usize,
    progress: &mut Vec<CompositionSearchProgress>,
) -> (result: Result<Vec<CompositionSearchResult>, CompositionError>)
    requires
        files.wf(),
        bits::two_to(target_spec@.wires.len()) <= usize::MAX,
        relations::rules_countable(target_spec@),
        candidate_total(pieces@, pieces@.len()) <= usize::MAX,
        old(progress)@.len() == 0,
    ensures
        is_search_result(tester.configuration().timeout, files, pieces@, target_spec@, max_results, result, final(progress)@),
{
    let ghost spec = target_spec@;
    if pieces.len() == 0 {
        return Err(CompositionError::Pattern { error: PatternError::NoPieces });
    }
    let patterns: Vec<PublishedPattern> = match load_patterns(files, pieces) {
        Ok(patterns) => patterns,
        Err(error) => {
            return Err(error);
        },
    };
    let total: usize = count_composition_candidates(pieces);
    let mut results: Vec<CompositionSearchResult> = Vec::new();
    let ghost mut outcomes: Seq<CandidateOutcome> = Seq::empty();
    let mut checked: usize = 0;
    assert(progress@ =~= Seq::<CompositionSearchProgress>::empty());
    while checked < total && results.len() < max_results
        invariant
            checked <= total,
            spec == target_spec@,
            pieces@.len() > 0,
            first_missing(files, pieces@, pieces@.len()) is None,
            are_patterns(patterns@, files, pieces@),
            bits::two_to(spec.wires.len()) <= usize::MAX,
            relations::rules_countable(spec),
            total == candidate_total(pieces@, pieces@.len()),
            is_state(tester.configuration().timeout, pieces@, patterns@, spec, outcomes, results@, progress@, checked as nat),
            checked > 0 ==> matches_among(outcomes, (checked - 1) as nat).len() < max_results,
        decreases total - checked,
    {
        let ghost before = outcomes;
        let ghost earlier = progress@;
        let candidate: Vec<(isize, isize)> = nth_candidate(pieces, pieces.len(), checked);
        checked += 1;
        let ghost k = checked as nat;
        progress.push(
            CompositionSearchProgress {
                checked_candidates: checked,
                total_candidates: total,
                matches_found: results.len(),
                current_candidate: named_places(pieces, &candidate),
            },
        );
        let outcome: CandidateOutcome = examine(tester, &patterns, &candidate, target_spec);
        proof {
            outcomes = before.push(outcome);
            lemma_reports_extend(earlier, pieces@, before, outcomes, (k - 1) as nat);
            lemma_matches_inside(before, (k - 1) as nat);
            assert forall|i: int| 0 <= i < k implies is_candidate_outcome(
                tester.configuration().timeout,
                #[trigger] outcomes[i],
                patterns@,
                candidate_at(pieces@, pieces@.len(), i),
                spec,
            ) && (i < k - 1 ==> outcomes[i] is Ok) by {
                if i < k - 1 {
                    assert(outcomes[i] == before[i]);
                }
            }
            assert(progress@.take(progress@.len() - 1) =~= earlier);
        }
        match outcome {
            Ok(Some(report)) => {
                let ghost found = results@;
                results.push(CompositionSearchResult { placements: named_places(pieces, &candidate), report });
                let ghost once = progress@;
                progress.push(
                    CompositionSearchProgress {
                        checked_candidates: checked,
                        total_candidates: total,
                        matches_found: results.len(),
                        current_candidate: named_places(pieces, &candidate),
                    },
                );
                proof {
                    assert(progress@.take(progress@.len() - 2) =~= earlier);
                    assert(progress@[progress@.len() - 2] == once[once.len() - 1]);
                    lemma_results_push(found, results@, pieces@, before, outcomes, (k - 1) as nat);
                }
            },
            Ok(None) => {
                proof {
                    lemma_results_keep(results@, pieces@, before, outcomes, (k - 1) as nat);
                }
            },
            Err(error) => {
                proof {
                    assert(outcomes[k - 1] == Err::<Option<PublishedVerificationReport>, CompositionError>(error));
                    assert(!is_match(outcomes[k - 1]));
                    assert(are_reports(progress@, pieces@, outcomes, k));
                    assert(is_search(
                        tester.configuration().timeout,
                        pieces@,
                        patterns@,
                        spec,
                        max_results,
                        outcomes,
                        Err::<Vec<CompositionSearchResult>, CompositionError>(error),
                    ));
                }
                return Err(error);
            },
        }
    }
    assert(is_search(
        tester.configuration().timeout,
        pieces@,
        patterns@,
        spec,
        max_results,
        outcomes,
        Ok::<Vec<CompositionSearchResult>, CompositionError>(results),
    ));
    Ok(results)
}

proof fn lemma_results_push(
    found: Seq<CompositionSearchResult>,
    results: Seq<CompositionSearchResult>,
    pieces: Seq<CompositionSearchPiece>,
    before: Seq<CandidateOutcome>,
    outcomes: Seq<CandidateOutcome>,
    k: nat,
)
    requires
        before.len() == k,
        outcomes.len() == k + 1,
        forall|i: int| 0 <= i < k ==> #[trigger] before[i] == outcomes[i],
        are_results(found, pieces, before, k),
        results.len() == found.len() + 1,
        results == found.push(results[found.len() as int]),
        outcomes[k as int] == Ok::<Option<PublishedVerificationReport>, CompositionError>(
            Some(results[found.len() as int].report),
        ),
        are_named_places(
            results[found.len() as int].placements@,
            pieces,
            candidate_at(pieces, pieces.len(), k as int),
        ),
    ensures
        are_results(results, pieces, outcomes, k + 1),
{
    lemma_matches_extend(before, outcomes, k);
    lemma_matches_inside(before, k);
    let list = matches_among(outcomes, k + 1);
    assert forall|i: int| 0 <= i < results.len() implies are_named_places(
        (#[trigger] results[i]).placements@,
        pieces,
        candidate_at(pieces, pieces.len(), list[i]),
    ) && outcomes[list[i]] == Ok::<Option<PublishedVerificationReport>, CompositionError>(Some(results[i].report)) by {
        if i < found.len() {
            assert(results[i] == found[i]);
            assert(list[i] == matches_among(before, k)[i]);
            assert(before[list[i]] == outcomes[list[i]]);
        }
    }
}

proof fn lemma_results_keep(
    results: Seq<CompositionSearchResult>,
    pieces: Seq<CompositionSearchPiece>,
    before: Seq<CandidateOutcome>,
    outcomes: Seq<CandidateOutcome>,
    k: nat,
)
    requires
        before.len() == k,
        outcomes.len() == k + 1,
        forall|i: int| 0 <= i < k ==> #[trigger] before[i] == outcomes[i],
        are_results(results, pieces, before, k),
        !is_match(outcomes[k as int]),
    ensures
        are_results(results, pieces, outcomes, k + 1),
{
    lemma_matches_extend(before, outcomes, k);
    lemma_matches_inside(before, k);
    let list = matches_among(outcomes, k + 1);
    assert forall|i: int| 0 <= i < results.len() implies are_named_places(
        (#[trigger] results[i]).placements@,
        pieces,
        candidate_at(pieces, pieces.len(), list[i]),
    ) && outcomes[list[i]] == Ok::<Option<PublishedVerificationReport>, CompositionError>(Some(results[i].report)) by {
        assert(list[i] == matches_among(before, k)[i]);
        assert(before[list[i]] == outcomes[list[i]]);
    }
}

/// Looks for places at which patterns compose to another.
pub fn search_composed_pattern_positions(
    tester: &GadgetVerifier,
    files: &PatternFiles,
    pieces: &Vec<CompositionSearchPiece>,
    target_spec: &PublishedSpec,
    max_results: usize,
) -> (result: Result<Vec<CompositionSearchResult>, CompositionError>)
    requires
        files.wf(),
        bits::two_to(target_spec@.wires.len()) <= usize::MAX,
        relations::rules_countable(target_spec@),
        candidate_total(pieces@, pieces@.len()) <= usize::MAX,
    ensures
        exists|reports: Seq<CompositionSearchProgress>| #[trigger]
            is_search_result(tester.configuration().timeout, files, pieces@, target_spec@, max_results, result, reports),
{
    let mut progress: Vec<CompositionSearchProgress> = Vec::new();
    let result: Result<Vec<CompositionSearchResult>, CompositionError> = search_composed_pattern_positions_with_progress(
        tester,
        files,
        pieces,
        target_spec,
        max_results,
        &mut progress,
    );
    assert(is_search_result(tester.configuration().timeout, files, pieces@, target_spec@, max_results, result, progress@));
    result
}

} // verus!
