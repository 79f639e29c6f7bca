//! What a search over the places of patterns tries, and what it finds.

use crate::compositions;
use crate::compositions::{
    CandidateOutcome, CompositionError, CompositionSearchPiece, CompositionSearchProgress, CompositionSearchResult,
};
use crate::library::SpecModel;
use crate::published;
use crate::published::{PatternFiles, PublishedPattern};
use crate::relations;
use crate::relations::PublishedVerificationReport;
use vstd::prelude::*;

verus! {

/// The choice of one place for each piece: the numbers of a value for x and of one for y.
pub open spec fn is_choice(pieces: Seq<CompositionSearchPiece>, k: nat, choice: Seq<(int, int)>) -> bool {
    choice.len() == k && forall|i: int|
        0 <= i < k ==> 0 <= (#[trigger] choice[i]).0 < pieces[i].x_values@.len() && 0 <= choice[i].1
            < pieces[i].y_values@.len()
}

/// The places that are chosen.
pub open spec fn chosen(pieces: Seq<CompositionSearchPiece>, choice: Seq<(int, int)>) -> Seq<(isize, isize)> {
    Seq::new(choice.len(), |i: int| (pieces[i].x_values@[choice[i].0], pieces[i].y_values@[choice[i].1]))
}

/// Which choice a candidate is.
spec fn choice_at(pieces: Seq<CompositionSearchPiece>, k: nat, n: int) -> Seq<(int, int)>
    decreases k,
{
    if k == 0 {
        Seq::empty()
    } else {
        let total = compositions::place_total(pieces[k - 1]) as int;
        let h = pieces[k - 1].y_values@.len() as int;
        choice_at(pieces, (k - 1) as nat, n / total).push(((n % total) / h, (n % total) % h))
    }
}

/// Where a choice stands among the candidates.
spec fn number_of(pieces: Seq<CompositionSearchPiece>, k: nat, choice: Seq<(int, int)>) -> int
    decreases k,
{
    if k == 0 {
        0
    } else {
        let total = compositions::place_total(pieces[k - 1]) as int;
        let h = pieces[k - 1].y_values@.len() as int;
        number_of(pieces, (k - 1) as nat, choice) * total + choice[k - 1].0 * h + choice[k - 1].1
    }
}

proof fn lemma_parts(a: int, b: int, w: int, h: int)
    requires
        0 <= a < w,
        0 <= b < h,
    ensures
        0 <= a * h + b < w * h,
        (a * h + b) / h == a,
        (a * h + b) % h == b,
{
    assert(0 <= a * h) by (nonlinear_arith)
        requires
            0 <= a,
            0 <= h,
    ;
    assert(a * h + h <= w * h) by (nonlinear_arith)
        requires
            a + 1 <= w,
            0 <= h,
    ;
    vstd::arithmetic::div_mod::lemma_fundamental_div_mod_converse(a * h + b, h, a, b);
}

proof fn lemma_whole(n: int, w: int, h: int)
    requires
        0 <= n < w * h,
        0 <= w,
        0 <= h,
    ensures
        h > 0,
        0 <= n / h < w,
        0 <= n % h < h,
        n == (n / h) * h + n % h,
{
    if h == 0 {
        assert(w * h == 0) by (nonlinear_arith)
            requires
                h == 0,
        ;
    }
    vstd::arithmetic::div_mod::lemma_fundamental_div_mod(n, h);
    assert(h * (n / h) == (n / h) * h) by (nonlinear_arith);
    vstd::arithmetic::div_mod::lemma_mod_bound(n, h);
    assert(0 <= n / h) by (nonlinear_arith)
        requires
            0 <= n,
            h > 0,
    ;
    assert(n / h < w) by (nonlinear_arith)
        requires
            n == (n / h) * h + n % h,
            0 <= n % h,
            n < w * h,
            h > 0,
    ;
}

proof fn lemma_choice_at(pieces: Seq<CompositionSearchPiece>, k: nat, n: int)
    requires
        k <= pieces.len(),
        0 <= n < compositions::candidate_total(pieces, k),
    ensures
        is_choice(pieces, k, choice_at(pieces, k, n)),
        compositions::candidate_at(pieces, k, n) == chosen(pieces, choice_at(pieces, k, n)),
        number_of(pieces, k, choice_at(pieces, k, n)) == n,
    decreases k,
{
    if k == 0 {
        assert(compositions::candidate_at(pieces, k, n) =~= chosen(pieces, choice_at(pieces, k, n)));
    } else {
        let piece = pieces[k - 1];
        let total = compositions::place_total(piece) as int;
        let before = compositions::candidate_total(pieces, (k - 1) as nat) as int;
        let (w, h) = (piece.x_values@.len() as int, piece.y_values@.len() as int);
        assert(total == w * h);
        lemma_whole(n, before, total);
        lemma_whole(n % total, w, h);
        lemma_choice_at(pieces, (k - 1) as nat, n / total);
        let earlier = choice_at(pieces, (k - 1) as nat, n / total);
        let all = choice_at(pieces, k, n);
        assert forall|i: int| 0 <= i < k implies 0 <= (#[trigger] all[i]).0 < pieces[i].x_values@.len() && 0 <= all[i].1
            < pieces[i].y_values@.len() by {
            if i < k - 1 {
                assert(all[i] == earlier[i]);
            }
        }
        assert(compositions::candidate_at(pieces, k, n) =~= chosen(pieces, all));
        lemma_number_prefix(pieces, (k - 1) as nat, earlier, all);
    }
}

proof fn lemma_number_prefix(
    pieces: Seq<CompositionSearchPiece>,
    k: nat,
    a: Seq<(int, int)>,
    b: Seq<(int, int)>,
)
    requires
        k <= a.len(),
        k <= b.len(),
        forall|i: int| 0 <= i < k ==> a[i] == #[trigger] b[i],
    ensures
        number_of(pieces, k, a) == number_of(pieces, k, b),
    decreases k,
{
    if k > 0 {
        lemma_number_prefix(pieces, (k - 1) as nat, a, b);
        assert(a[k - 1] == b[k - 1]);
    }
}

proof fn lemma_number_of(pieces: Seq<CompositionSearchPiece>, k: nat, choice: Seq<(int, int)>)
    requires
        k <= pieces.len(),
        is_choice(pieces, k, choice),
    ensures
        0 <= number_of(pieces, k, choice) < compositions::candidate_total(pieces, k),
        choice_at(pieces, k, number_of(pieces, k, choice)) == choice,
    decreases k,
{
    if k == 0 {
        assert(choice_at(pieces, k, 0) =~= choice);
    } else {
        let piece = pieces[k - 1];
        let total = compositions::place_total(piece) as int;
        let before = compositions::candidate_total(pieces, (k - 1) as nat) as int;
        let (w, h) = (piece.x_values@.len() as int, piece.y_values@.len() as int);
        let rest = choice.drop_last();
        assert forall|i: int| 0 <= i < k - 1 implies 0 <= (#[trigger] rest[i]).0 < pieces[i].x_values@.len() && 0
            <= rest[i].1 < pieces[i].y_values@.len() by {
            assert(rest[i] == choice[i]);
        }
        lemma_number_of(pieces, (k - 1) as nat, rest);
        lemma_number_prefix(pieces, (k - 1) as nat, rest, choice);
        let (a, b) = choice[k - 1];
        let m = number_of(pieces, (k - 1) as nat, choice);
        assert(total == w * h);
        lemma_parts(a, b, w, h);
        let inner = a * h + b;
        lemma_parts(m, inner, before, total);
        let n = number_of(pieces, k, choice);
        assert(n == m * total + inner);
        assert(choice_at(pieces, k, n) =~= rest.push((a, b)));
        assert(rest.push((a, b)) =~= choice);
    }
}

/// The candidates of a search are the choices of one place for each piece: every choice is a
/// candidate, and every candidate is a choice.
pub proof fn law_candidates_are_choices(pieces: Seq<CompositionSearchPiece>, choice: Seq<(int, int)>, n: int)
    requires
        is_choice(pieces, pieces.len(), choice),
        0 <= n < compositions::candidate_total(pieces, pieces.len()),
    ensures
        exists|m: int|
            0 <= m < compositions::candidate_total(pieces, pieces.len()) && #[trigger] compositions::candidate_at(
                pieces,
                pieces.len(),
                m,
            ) == chosen(pieces, choice),
        exists|other: Seq<(int, int)>| #[trigger]
            is_choice(pieces, pieces.len(), other) && compositions::candidate_at(pieces, pieces.len(), n) == chosen(
                pieces,
                other,
            ),
{
    let k = pieces.len();
    lemma_number_of(pieces, k, choice);
    let m = number_of(pieces, k, choice);
    lemma_choice_at(pieces, k, m);
    assert(compositions::candidate_at(pieces, k, m) == chosen(pieces, choice));
    lemma_choice_at(pieces, k, n);
    assert(is_choice(pieces, k, choice_at(pieces, k, n)));
}

/// There are as many candidates as choices: with another piece, each earlier candidate is joined
/// with each place of the piece.
pub proof fn law_candidates_multiply(pieces: Seq<CompositionSearchPiece>, piece: CompositionSearchPiece, k: nat)
    requires
        k == pieces.len(),
    ensures
        compositions::candidate_total(pieces.push(piece), k + 1) == compositions::candidate_total(pieces, k) * (
        piece.x_values@.len() * piece.y_values@.len()),
{
    lemma_total_prefix(pieces, pieces.push(piece), k);
}

proof fn lemma_total_prefix(a: Seq<CompositionSearchPiece>, b: Seq<CompositionSearchPiece>, k: nat)
    requires
        k <= a.len(),
        k <= b.len(),
        forall|i: int| 0 <= i < k ==> a[i] == #[trigger] b[i],
    ensures
        compositions::candidate_total(a, k) == compositions::candidate_total(b, k),
    decreases k,
{
    if k > 0 {
        lemma_total_prefix(a, b, (k - 1) as nat);
        assert(a[k - 1] == b[k - 1]);
    }
}

proof fn lemma_matches(outcomes: Seq<CandidateOutcome>, k: nat)
    requires
        k <= outcomes.len(),
    ensures
        ({
            let found = compositions::matches_among(outcomes, k);
            &&& forall|i: int|
                0 <= i < found.len() ==> 0 <= #[trigger] found[i] < k && compositions::is_match(outcomes[found[i]])
            &&& forall|i: int, j: int| #![trigger found[i], found[j]] 0 <= i < j < found.len() ==> found[i] < found[j]
            &&& forall|n: int|
                0 <= n < k && compositions::is_match(#[trigger] outcomes[n]) ==> found.contains(n)
        }),
    decreases k,
{
    if k > 0 {
        lemma_matches(outcomes, (k - 1) as nat);
        let earlier = compositions::matches_among(outcomes, (k - 1) as nat);
        let found = compositions::matches_among(outcomes, k);
        assert forall|n: int| 0 <= n < k && compositions::is_match(#[trigger] outcomes[n]) implies found.contains(n) by {
            if n < k - 1 {
                assert(earlier.contains(n));
                let i = choose|i: int| 0 <= i < earlier.len() && earlier[i] == n;
                assert(found[i] == n);
            } else {
                assert(found[found.len() - 1] == n);
            }
        }
    }
}

/// The places that a search result holds.
pub open spec fn places_in(result: CompositionSearchResult) -> Seq<(isize, isize)> {
    Seq::new(result.placements@.len(), |i: int| (result.placements@[i].1, result.placements@[i].2))
}

/// A search result: the patterns of the pieces, at places that were to be tried, compose to a pattern
/// that meets the specification in all that is tested.
pub open spec fn is_found(
    files: &PatternFiles,
    pieces: Seq<CompositionSearchPiece>,
    spec: SpecModel,
    result: CompositionSearchResult,
) -> bool {
    &&& result.placements@.len() == pieces.len()
    &&& forall|i: int|
        0 <= i < pieces.len() ==> (#[trigger] result.placements@[i]).0@ == pieces[i].spec_name@
            && pieces[i].x_values@.contains(result.placements@[i].1) && pieces[i].y_values@.contains(
            result.placements@[i].2,
        )
    &&& result.report.succeeds()
    &&& exists|patterns: Seq<PublishedPattern>, composed: PublishedPattern|
        compositions::are_patterns(patterns, files, pieces) && #[trigger] published::is_composition(
            &composed,
            compositions::placed_patterns(patterns, places_in(result)),
        ) && relations::size_fits(spec, &composed) && relations::alignment_fits(spec, &composed)
}

/// What a search over places returns are places where the composed pattern meets the
/// specification, and they are no more than were asked for.
pub proof fn law_found_places_fit(
    timeout: Option<u64>,
    files: &PatternFiles,
    pieces: Seq<CompositionSearchPiece>,
    spec: SpecModel,
    max_results: usize,
    results: Vec<CompositionSearchResult>,
    reports: Seq<CompositionSearchProgress>,
    r: int,
)
    requires
        compositions::is_search_result(
            timeout,
            files,
            pieces,
            spec,
            max_results,
            Ok::<Vec<CompositionSearchResult>, CompositionError>(results),
            reports,
        ),
        0 <= r < results@.len(),
    ensures
        is_found(files, pieces, spec, results@[r]),
        results@.len() <= max_results,
{
    let outcome = Ok::<Vec<CompositionSearchResult>, CompositionError>(results);
    let (patterns, outcomes) = choose|patterns: Seq<PublishedPattern>, outcomes: Seq<CandidateOutcome>|
        compositions::are_patterns(patterns, files, pieces) && #[trigger] compositions::is_search(
            timeout,
            pieces,
            patterns,
            spec,
            max_results,
            outcomes,
            outcome,
        ) && compositions::are_reports(reports, pieces, outcomes, outcomes.len());
    let n = outcomes.len();
    lemma_matches(outcomes, n);
    let found = compositions::matches_among(outcomes, n);
    let m = found[r];
    let candidate = compositions::candidate_at(pieces, pieces.len(), m);
    lemma_choice_at(pieces, pieces.len(), m);
    let choice = choice_at(pieces, pieces.len(), m);
    let result = results@[r];
    assert(compositions::are_named_places(result.placements@, pieces, candidate));
    assert forall|i: int| 0 <= i < pieces.len() implies (#[trigger] result.placements@[i]).0@ == pieces[i].spec_name@
        && pieces[i].x_values@.contains(result.placements@[i].1) && pieces[i].y_values@.contains(
        result.placements@[i].2,
    ) by {
        assert((result.placements@[i].1, result.placements@[i].2) == candidate[i]);
        assert(pieces[i].x_values@[choice[i].0] == candidate[i].0);
        assert(pieces[i].y_values@[choice[i].1] == candidate[i].1);
    }
    let places = places_in(result);
    assert(places =~= candidate) by {
        assert forall|i: int| 0 <= i < pieces.len() implies places[i] == candidate[i] by {
            assert((result.placements@[i].1, result.placements@[i].2) == candidate[i]);
        }
    }
    assert(compositions::is_candidate_outcome(timeout, outcomes[m], patterns, candidate, spec));
    let composed = choose|composed: PublishedPattern| #[trigger]
        published::is_composition(&composed, compositions::placed_patterns(patterns, candidate))
            && compositions::is_judged(timeout, outcomes[m], &composed, spec);
    assert(outcomes[m] == Ok::<Option<PublishedVerificationReport>, CompositionError>(Some(result.report)));
    assert(published::is_composition(&composed, compositions::placed_patterns(patterns, places)));
    if n > 0 {
        let before = compositions::matches_among(outcomes, (n - 1) as nat);
        assert(found.len() <= before.len() + 1);
    }
}

} // verus!
