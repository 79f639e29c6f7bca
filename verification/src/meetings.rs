//! Why the wires of patterns that are put side by side meet.

use crate::calibration;
use crate::calibration::CalibrationJob;
use crate::composites::{LoadedPiece, SharedModel};
use crate::deltas;
use crate::deltas::LinkModel;
use crate::discharge;
use crate::discharge::{InterfaceLemmaReport, Trial};
use crate::encoding::CellCoord;
use crate::interface_error::InterfaceError;
use crate::interfaces;
use crate::interfaces::InterfaceOrientation;
use crate::audit::{HorizontalMotifFamily, VerticalMotifFamily};
use crate::published;
use crate::published::PatternFiles;
use crate::routing;
use crate::routing::{HorizontalInterfaceFamily, VerticalInterfaceFamily};
use crate::stock;
use crate::wholes;
use crate::wholes::InterfacePlacement;
use vstd::prelude::*;

verus! {

/// The wire of one piece ends where that of another does.
pub open spec fn ends_meet(
    one: &LoadedPiece,
    one_port: Seq<char>,
    one_origin: (isize, isize),
    other: &LoadedPiece,
    other_port: Seq<char>,
    other_origin: (isize, isize),
) -> bool {
    match (
        wholes::end_at(published::anchors_of(&one.pattern), one_port),
        wholes::end_at(published::anchors_of(&other.pattern), other_port),
    ) {
        (Some(a), Some(b)) => one_origin.0 + a.x == other_origin.0 + b.x && one_origin.1 + a.y == other_origin.1 + b.y,
        _ => false,
    }
}

/// Where the piece with a number stands.
pub open spec fn stands_at(placement: InterfacePlacement, i: int) -> (isize, isize) {
    (placement.piece_origins@[i].1, placement.piece_origins@[i].2)
}

/// Two joined wires meet.
pub open spec fn joint_meets(pieces: Seq<&LoadedPiece>, placement: InterfacePlacement, shared: SharedModel) -> bool {
    exists|i: int, j: int|
        #![trigger pieces[i], pieces[j]]
        0 <= i < pieces.len() && 0 <= j < pieces.len() && pieces[i].role@ == shared.left_role && pieces[j].role@
            == shared.right_role && ends_meet(
            pieces[i],
            shared.left_port,
            stands_at(placement, i),
            pieces[j],
            shared.right_port,
            stands_at(placement, j),
        )
}

/// A number is a multiple of three, and not too large.
pub open spec fn is_slide(n: int, most: int) -> bool {
    n % 3 == 0 && -most <= n <= most
}

/// The places are a middle one, which comes first, and all those that lie a multiple of three
/// cells away from it along each axis, up to a limit; each occurs once.
pub open spec fn surrounds(list: Seq<(isize, isize)>, middle: (isize, isize), wide: int, high: int) -> bool {
    &&& list.len() > 0
    &&& list[0] == middle
    &&& forall|k: int|
        0 <= k < list.len() ==> is_slide((#[trigger] list[k]).0 - middle.0, wide) && is_slide(list[k].1 - middle.1, high)
    &&& forall|x: int, y: int|
        is_slide(x, wide) && is_slide(y, high) ==> #[trigger] list.contains(
            ((middle.0 + x) as isize, (middle.1 + y) as isize),
        )
    &&& list.no_duplicates()
}

proof fn lemma_offset(i: int)
    requires
        i >= 0,
    ensures
        is_slide(discharge::offset(i), 3 * ((i + 1) / 2)),
        discharge::offset(0) == 0,
        i % 2 == 1 ==> discharge::offset(i) == -3 * ((i + 1) / 2),
        i % 2 == 0 ==> discharge::offset(i) == 3 * (i / 2),
{
}

/// The number of steps that leads to a multiple of three.
spec fn steps_to(n: int) -> int {
    if n < 0 {
        -2 * (n / 3) - 1
    } else {
        2 * (n / 3)
    }
}

proof fn lemma_steps_to(n: int, half: int)
    requires
        is_slide(n, 3 * half),
        half >= 0,
    ensures
        0 <= steps_to(n) < 2 * half + 1,
        discharge::offset(steps_to(n)) == n,
{
}

proof fn lemma_around(centre: (int, int), half_columns: int, half_rows: int)
    requires
        0 <= half_columns <= 8,
        0 <= half_rows <= 8,
        discharge::is_within(centre, 2 * half_columns + 1, 2 * half_rows + 1),
    ensures
        surrounds(
            discharge::around(centre, 2 * half_columns + 1, 2 * half_rows + 1),
            (centre.0 as isize, centre.1 as isize),
            3 * half_columns,
            3 * half_rows,
        ),
{
    let columns = 2 * half_columns + 1;
    let rows = 2 * half_rows + 1;
    let list = discharge::around(centre, columns, rows);
    let middle = (centre.0 as isize, centre.1 as isize);
    assert(columns * rows >= 1) by (nonlinear_arith)
        requires
            columns >= 1,
            rows >= 1,
    ;
    assert(list.len() == columns * rows);
    assert(0int / rows == 0 && 0int % rows == 0);
    assert(list[0] == middle);
    assert forall|k: int| 0 <= k < list.len() implies is_slide((#[trigger] list[k]).0 - middle.0, 3 * half_columns)
        && is_slide(list[k].1 - middle.1, 3 * half_rows) && list[k].0 == centre.0 + discharge::offset(k / rows)
        && list[k].1 == centre.1 + discharge::offset(k % rows) by {
        assert(0 <= k / rows < columns && 0 <= k % rows < rows) by (nonlinear_arith)
            requires
                0 <= k < columns * rows,
                rows >= 1,
        ;
        lemma_offset(k / rows);
        lemma_offset(k % rows);
    }
    assert forall|x: int, y: int| is_slide(x, 3 * half_columns) && is_slide(y, 3 * half_rows) implies #[trigger] list.contains(
        ((middle.0 + x) as isize, (middle.1 + y) as isize),
    ) by {
        lemma_steps_to(x, half_columns);
        lemma_steps_to(y, half_rows);
        let k = steps_to(x) * rows + steps_to(y);
        let (a, b) = (steps_to(x), steps_to(y));
        assert(0 <= k < columns * rows && k / rows == a && k % rows == b) by (nonlinear_arith)
            requires
                0 <= a < columns,
                0 <= b < rows,
                k == a * rows + b,
        ;
        assert(list[k] == ((middle.0 + x) as isize, (middle.1 + y) as isize));
    }
    assert forall|i: int, j: int| 0 <= i < list.len() && 0 <= j < list.len() && i != j implies list[i] != list[j] by {
        assert(is_slide(list[i].0 - middle.0, 3 * half_columns));
        assert(is_slide(list[j].0 - middle.0, 3 * half_columns));
        assert(0 <= i / rows && 0 <= i % rows < rows && 0 <= j / rows && 0 <= j % rows < rows && i == rows * (i / rows) + i
            % rows && j == rows * (j / rows) + j % rows) by (nonlinear_arith)
            requires
                0 <= i,
                0 <= j,
                rows >= 1,
        ;
        if list[i] == list[j] {
            assert(discharge::offset(i / rows) == discharge::offset(j / rows));
            assert(discharge::offset(i % rows) == discharge::offset(j % rows));
            assert(i / rows == j / rows);
            assert(i % rows == j % rows);
        }
    }
}

/// The joined wires of patterns side by side meet: in every composition that is tested, the
/// connector's western wire ends where the eastern wire of the left piece does. At the first place
/// that is not known from before, the connector's eastern wire ends where the western wire of the
/// right piece does, and the other places lie around it.
pub open spec fn trial_meets_across(trial: Trial, known: nat) -> bool {
    &&& trial.pieces.len() == 3
    &&& trial.shared.len() == 2
    &&& known < trial.candidates.len()
    &&& surrounds(trial.candidates.skip(known as int), trial.candidates[known as int], 9, 3)
    &&& forall|placement: InterfacePlacement, k: int|
        0 <= k < trial.candidates.len() && #[trigger] discharge::is_place(
            placement,
            trial.pieces,
            trial.fixed,
            #[trigger] trial.candidates[k],
        ) ==> {
            &&& joint_meets(trial.pieces, placement, trial.shared[0])
            &&& k == known ==> joint_meets(trial.pieces, placement, trial.shared[1])
        }
}

/// The joined wires of patterns below each other meet at the first place that is not known from
/// before, and the other places lie around it.
pub open spec fn trial_meets_down(trial: Trial, known: nat) -> bool {
    &&& trial.pieces.len() == 2
    &&& trial.shared.len() == 1
    &&& known < trial.candidates.len()
    &&& surrounds(trial.candidates.skip(known as int), trial.candidates[known as int], 3, 12)
    &&& forall|placement: InterfacePlacement, k: int|
        0 <= k < trial.candidates.len() && #[trigger] discharge::is_place(
            placement,
            trial.pieces,
            trial.fixed,
            #[trigger] trial.candidates[k],
        ) && k == known ==> joint_meets(trial.pieces, placement, trial.shared[0])
}

/// The test of a family of patterns side by side is one in which the joined wires meet.
pub proof fn law_joined_wires_meet_across(
    timeout: Option<u64>,
    files: &PatternFiles,
    family: HorizontalInterfaceFamily,
    limit: Option<usize>,
    report: InterfaceLemmaReport,
)
    requires
        discharge::is_horizontal_result(
            timeout,
            files,
            family,
            limit,
            Ok::<InterfaceLemmaReport, InterfaceError>(report),
        ),
    ensures
        exists|trial: Trial, known: nat|
            discharge::is_family_report(
                report,
                InterfaceOrientation::Horizontal,
                interfaces::across_label(routing::horizontal_family_names(family)),
                family.count,
                trial,
            ) && #[trigger] trial_meets_across(trial, known) && wholes::is_loaded(
                *trial.pieces[0],
                files,
                "left"@,
                family.left_spec_name@,
            ) && wholes::is_loaded(*trial.pieces[1], files, "connector"@, family.connector_spec_name@)
                && wholes::is_loaded(*trial.pieces[2], files, "right"@, family.right_spec_name@) && (report.placement matches Some(placement)
                ==> joint_meets(trial.pieces, placement, trial.shared[0])),
{
    let names = routing::horizontal_family_names(family);
    let left_end = stock::ends_of(stock::rows_named(files, names[0])->Some_0).east->Some_0;
    let west = stock::ends_of(stock::rows_named(files, names[1])->Some_0).west->Some_0;
    let east = stock::ends_of(stock::rows_named(files, names[1])->Some_0).east->Some_0;
    let right_end = stock::ends_of(stock::rows_named(files, names[2])->Some_0).west->Some_0;
    let ends = (left_end, west, east, right_end);
    let (left, connector, right) = choose|left: LoadedPiece, connector: LoadedPiece, right: LoadedPiece|
        wholes::is_loaded(left, files, "left"@, names[0]) && wholes::is_loaded(connector, files, "connector"@, names[1])
            && wholes::is_loaded(right, files, "right"@, names[2]) && #[trigger] discharge::tells_across(
            timeout,
            report,
            family,
            limit,
            ends,
            &left,
            &connector,
            &right,
        );
    discharge::lemma_piece_ends(&left, files, "left"@, names[0]);
    discharge::lemma_piece_ends(&connector, files, "connector"@, names[1]);
    discharge::lemma_piece_ends(&right, files, "right"@, names[2]);
    discharge::lemma_port_texts();
    let old = crate::candidates::known_right_deltas(names[0], names[1], names[2]);
    let trial = Trial {
        name: "horizontal:"@ + interfaces::across_label(names),
        pieces: seq![&left, &connector, &right],
        shared: discharge::shared_across(),
        fixed: seq![(0isize, 0isize), discharge::place_pair(discharge::connector_place(ends))],
        candidates: discharge::candidate_places(old, discharge::right_place(ends), 7, 3),
        limit,
        timeout,
    };
    let known = old.len();
    let middle = discharge::right_place(ends);
    lemma_around(middle, 3, 1);
    let fresh = discharge::around(middle, 7, 3);
    assert(trial.candidates.skip(known as int) =~= fresh);
    assert(trial.candidates[known as int] == fresh[0]);
    assert forall|placement: InterfacePlacement, k: int|
        0 <= k < trial.candidates.len() && #[trigger] discharge::is_place(
            placement,
            trial.pieces,
            trial.fixed,
            #[trigger] trial.candidates[k],
        ) implies {
        &&& joint_meets(trial.pieces, placement, trial.shared[0])
        &&& k == known ==> joint_meets(trial.pieces, placement, trial.shared[1])
    } by {
        let list = placement.piece_origins@;
        assert((list[0].1, list[0].2) == (0isize, 0isize));
        assert((list[1].1, list[1].2) == discharge::place_pair(discharge::connector_place(ends)));
        assert((list[2].1, list[2].2) == trial.candidates[k]);
        assert(trial.pieces[0].role@ == "left"@);
        assert(trial.pieces[1].role@ == "connector"@);
        assert(trial.pieces[2].role@ == "right"@);
        assert(ends_meet(
            trial.pieces[0],
            "E"@,
            stands_at(placement, 0),
            trial.pieces[1],
            "W"@,
            stands_at(placement, 1),
        ));
        if k == known {
            assert(ends_meet(
                trial.pieces[1],
                "E"@,
                stands_at(placement, 1),
                trial.pieces[2],
                "W"@,
                stands_at(placement, 2),
            ));
        }
    }
    assert(trial_meets_across(trial, known));
}

/// The test of a family of patterns below each other is one in which the joined wires meet.
pub proof fn law_joined_wires_meet_down(
    timeout: Option<u64>,
    files: &PatternFiles,
    family: VerticalInterfaceFamily,
    limit: Option<usize>,
    report: InterfaceLemmaReport,
)
    requires
        discharge::is_vertical_result(
            timeout,
            files,
            family,
            limit,
            Ok::<InterfaceLemmaReport, InterfaceError>(report),
        ),
    ensures
        exists|trial: Trial, known: nat|
            discharge::is_family_report(
                report,
                InterfaceOrientation::Vertical,
                interfaces::down_label(routing::vertical_family_names(family)),
                family.count,
                trial,
            ) && #[trigger] trial_meets_down(trial, known) && wholes::is_loaded(
                *trial.pieces[0],
                files,
                "top"@,
                family.top_spec_name@,
            ) && wholes::is_loaded(*trial.pieces[1], files, "bottom"@, family.bottom_spec_name@),
{
    let names = routing::vertical_family_names(family);
    let south = stock::ends_of(stock::rows_named(files, names[0])->Some_0).south->Some_0;
    let north = stock::ends_of(stock::rows_named(files, names[1])->Some_0).north->Some_0;
    let ends = (south, north);
    let (top, bottom) = choose|top: LoadedPiece, bottom: LoadedPiece|
        wholes::is_loaded(top, files, "top"@, names[0]) && wholes::is_loaded(bottom, files, "bottom"@, names[1])
            && #[trigger] discharge::tells_down(timeout, report, family, limit, ends, &top, &bottom);
    discharge::lemma_piece_ends(&top, files, "top"@, names[0]);
    discharge::lemma_piece_ends(&bottom, files, "bottom"@, names[1]);
    discharge::lemma_port_texts();
    let old = crate::candidates::known_bottom_deltas(names[0], names[1]);
    let middle = (south.x - north.x, south.y - north.y);
    let trial = Trial {
        name: "vertical:"@ + interfaces::down_label(names),
        pieces: seq![&top, &bottom],
        shared: discharge::shared_down(),
        fixed: seq![(0isize, 0isize)],
        candidates: discharge::candidate_places(old, middle, 3, 9),
        limit,
        timeout,
    };
    let known = old.len();
    lemma_around(middle, 1, 4);
    let fresh = discharge::around(middle, 3, 9);
    assert(trial.candidates.skip(known as int) =~= fresh);
    assert(trial.candidates[known as int] == fresh[0]);
    assert forall|placement: InterfacePlacement, k: int|
        0 <= k < trial.candidates.len() && #[trigger] discharge::is_place(
            placement,
            trial.pieces,
            trial.fixed,
            #[trigger] trial.candidates[k],
        ) && k == known implies joint_meets(trial.pieces, placement, trial.shared[0]) by {
        let list = placement.piece_origins@;
        assert((list[0].1, list[0].2) == (0isize, 0isize));
        assert((list[1].1, list[1].2) == trial.candidates[k]);
        assert(trial.pieces[0].role@ == "top"@);
        assert(trial.pieces[1].role@ == "bottom"@);
        assert(ends_meet(
            trial.pieces[0],
            "S"@,
            stands_at(placement, 0),
            trial.pieces[1],
            "N"@,
            stands_at(placement, 1),
        ));
    }
    assert(trial_meets_down(trial, known));
}

/// A cell whose coordinates have 32 bits.
pub open spec fn is_near(cell: CellCoord) -> bool {
    i32::MIN <= cell.x <= i32::MAX && i32::MIN <= cell.y <= i32::MAX
}

/// The steps lead to a place that is allowed.
pub open spec fn allows_slide(link: LinkModel, level: bool, steps: int) -> bool {
    exists|i: int|
        0 <= i < link.candidates.len() && (#[trigger] link.candidates[i]).right_delta.0 == link.default.right_delta.0 + (
        if level {
            steps
        } else {
            0
        }) && link.candidates[i].right_delta.1 == link.default.right_delta.1 + (if level {
            0
        } else {
            steps
        })
}

proof fn lemma_completed(
    known: Seq<crate::candidates::HorizontalPlacementCandidate>,
    default: crate::candidates::HorizontalPlacementCandidate,
    level: bool,
    k: nat,
)
    requires
        k <= 5,
    ensures
        known.len() <= deltas::completed(known, default, level, k).len(),
        forall|i: int|
            0 <= i < known.len() ==> #[trigger] deltas::completed(known, default, level, k)[i] == known[i],
        forall|i: int|
            known.len() <= i < deltas::completed(known, default, level, k).len() ==> exists|j: int|
                0 <= j < k && #[trigger] deltas::completed(known, default, level, k)[i] == deltas::slid(
                    default,
                    level,
                    #[trigger] deltas::slides()[j],
                ),
        forall|j: int|
            0 <= j < k ==> deltas::has_place(
                deltas::completed(known, default, level, k),
                deltas::slid(default, level, #[trigger] deltas::slides()[j]).right_delta,
            ),
    decreases k,
{
    if k > 0 {
        let prev = (k - 1) as nat;
        lemma_completed(known, default, level, prev);
        let before = deltas::completed(known, default, level, prev);
        let after = deltas::completed(known, default, level, k);
        let added = deltas::slid(default, level, deltas::slides()[k - 1]);
        if deltas::has_place(before, added.right_delta) {
            assert(after == before);
        } else {
            assert(after == before.push(added));
            assert(after[before.len() as int] == added);
        }
        assert forall|j: int| 0 <= j < k implies deltas::has_place(
            after,
            deltas::slid(default, level, #[trigger] deltas::slides()[j]).right_delta,
        ) by {
            if j < k - 1 {
                let place = deltas::slid(default, level, deltas::slides()[j]).right_delta;
                assert(deltas::has_place(before, place));
                let i = choose|i: int| 0 <= i < before.len() && (#[trigger] before[i]).right_delta == place;
                assert(after[i].right_delta == place);
            } else if !deltas::has_place(before, added.right_delta) {
                assert(after[before.len() as int].right_delta == added.right_delta);
            }
        }
        assert forall|i: int| known.len() <= i < after.len() implies exists|j: int|
            0 <= j < k && #[trigger] after[i] == deltas::slid(default, level, #[trigger] deltas::slides()[j]) by {
            if i < before.len() {
                assert(after[i] == before[i]);
                let j = choose|j: int|
                    0 <= j < prev && before[i] == deltas::slid(default, level, #[trigger] deltas::slides()[j]);
                assert(after[i] == deltas::slid(default, level, deltas::slides()[j]));
            } else {
                assert(after[i] == deltas::slid(default, level, deltas::slides()[k - 1]));
            }
        }
    }
}

/// A candidate stands where a known one does, or a multiple of three cells along the wire from
/// the place where the wires meet, with the connector where the wires meet.
pub open spec fn is_allowed_candidate(
    link: LinkModel,
    known: Seq<crate::candidates::HorizontalPlacementCandidate>,
    level: bool,
    i: int,
) -> bool {
    let candidate = link.candidates[i];
    let dx = candidate.right_delta.0 - link.default.right_delta.0;
    let dy = candidate.right_delta.1 - link.default.right_delta.1;
    ||| i < known.len() && candidate == known[i]
    ||| {
        &&& candidate.connector_delta == link.default.connector_delta
        &&& if level {
            is_slide(dx, 6) && dy == 0
        } else {
            dx == 0 && is_slide(dy, 6)
        }
    }
}

/// The link's candidates are the known ones and, along the wire, the place where the wires meet
/// and those three and six cells before and behind it.
pub open spec fn allows_slides(
    link: LinkModel,
    known: Seq<crate::candidates::HorizontalPlacementCandidate>,
    level: bool,
) -> bool {
    &&& known.len() <= link.candidates.len()
    &&& forall|i: int|
        0 <= i < known.len() ==> #[trigger] link.candidates[i] == known[i]
    &&& forall|i: int|
        #![trigger link.candidates[i]]
        0 <= i < link.candidates.len() ==> is_allowed_candidate(link, known, level, i)
    &&& forall|steps: int| #[trigger] is_slide(steps, 6) ==> allows_slide(link, level, steps)
}

proof fn lemma_allows_slides(
    link: LinkModel,
    known: Seq<crate::candidates::HorizontalPlacementCandidate>,
    level: bool,
)
    requires
        link.candidates == deltas::all_candidates(known, link.default, level),
        deltas::can_slide(deltas::pair_vector(link.default.right_delta), level),
    ensures
        allows_slides(link, known, level),
{
    lemma_completed(known, link.default, level, 5);
    assert forall|i: int| #![trigger link.candidates[i]]
        0 <= i < link.candidates.len() implies is_allowed_candidate(link, known, level, i) by {
        if i >= known.len() {
            let j = choose|j: int|
                0 <= j < 5 && link.candidates[i] == deltas::slid(link.default, level, #[trigger] deltas::slides()[j]);
            assert(link.candidates[i] == deltas::slid(link.default, level, deltas::slides()[j]));
        }
    }
    assert forall|steps: int| #[trigger] is_slide(steps, 6) implies allows_slide(link, level, steps) by {
        let j = (steps + 6) / 3;
        assert(0 <= j < 5 && deltas::slides()[j] == steps);
        let place = deltas::slid(link.default, level, deltas::slides()[j]).right_delta;
        assert(deltas::has_place(link.candidates, place));
        let i = choose|i: int| 0 <= i < link.candidates.len() && (#[trigger] link.candidates[i]).right_delta == place;
        assert(link.candidates[i].right_delta == place);
    }
}

/// Two patterns side by side are linked by the connector whose phases are those of their wires,
/// and at the place from which the others are reckoned both its wires meet theirs.
pub proof fn law_linked_wires_meet_across(files: &PatternFiles, left: Seq<char>, right: Seq<char>)
    requires
        deltas::link_across(files, left, right) is Ok,
    ensures
        ({
            let link = deltas::link_across(files, left, right)->Ok_0;
            let left_rows = stock::rows_named(files, left)->Some_0;
            let right_rows = stock::rows_named(files, right)->Some_0;
            let a = stock::ends_of(left_rows).east;
            let b = stock::ends_of(stock::rows_named(files, link.connector)->Some_0).west;
            let c = stock::ends_of(stock::rows_named(files, link.connector)->Some_0).east;
            let d = stock::ends_of(right_rows).west;
            let between = link.default.connector_delta;
            let beyond = link.default.right_delta;
            &&& a is Some && b is Some && c is Some && d is Some
            &&& is_near(a->0) && is_near(b->0) && is_near(c->0) && is_near(d->0) ==> {
                &&& a->0.x == between.0 + b->0.x
                &&& a->0.y == between.1 + b->0.y
                &&& between.0 + c->0.x == beyond.0 + d->0.x
                &&& between.1 + c->0.y == beyond.1 + d->0.y
            }
            &&& crate::library::spec_named(link.connector) matches Some(spec) && spec.align matches Some(phases)
                && phases.2 is Some && phases.0 is Some && phases.2 == published::alignment_in(left_rows).0 && phases.0
                == published::alignment_in(right_rows).2
            &&& allows_slides(link, crate::candidates::known_across(left, link.connector, right), true)
        }),
{
    let link = deltas::link_across(files, left, right)->Ok_0;
    let left_rows = stock::rows_named(files, left)->Some_0;
    let right_rows = stock::rows_named(files, right)->Some_0;
    let west = published::alignment_in(left_rows).0->Some_0;
    let east = published::alignment_in(right_rows).2->Some_0;
    crate::bearings::lemma_connector_phases(west, east);
    lemma_allows_slides(link, crate::candidates::known_across(left, link.connector, right), true);
}

/// Two patterns below each other are linked at the place where their wires meet, or along the
/// wire from there.
pub proof fn law_linked_wires_meet_down(files: &PatternFiles, top: Seq<char>, bottom: Seq<char>)
    requires
        deltas::link_down(files, top, bottom) is Ok,
    ensures
        ({
            let link = deltas::link_down(files, top, bottom)->Ok_0;
            let a = stock::ends_of(stock::rows_named(files, top)->Some_0).south;
            let b = stock::ends_of(stock::rows_named(files, bottom)->Some_0).north;
            let below = link.default.right_delta;
            &&& a is Some && b is Some
            &&& is_near(a->0) && is_near(b->0) ==> a->0.x == below.0 + b->0.x && a->0.y == below.1 + b->0.y
            &&& allows_slides(link, deltas::known_below(top, bottom), false)
        }),
{
    let link = deltas::link_down(files, top, bottom)->Ok_0;
    lemma_allows_slides(link, deltas::known_below(top, bottom), false);
}

/// The places are all those that lie no farther from a middle one than the margins, each once.
pub open spec fn fills(list: Seq<(isize, isize)>, middle: (int, int), margins: (isize, isize)) -> bool {
    &&& forall|k: int|
        0 <= k < list.len() ==> -margins.0 <= (#[trigger] list[k]).0 - middle.0 <= margins.0 && -margins.1 <= list[k].1
            - middle.1 <= margins.1
    &&& forall|x: int, y: int|
        -margins.0 <= x <= margins.0 && -margins.1 <= y <= margins.1 ==> #[trigger] list.contains(
            ((middle.0 + x) as isize, (middle.1 + y) as isize),
        )
}

proof fn lemma_rectangle(left: int, top: int, width: int, height: int)
    requires
        0 <= width,
        0 <= height,
        isize::MIN <= left,
        left + width - 1 <= isize::MAX,
        isize::MIN <= top,
        top + height - 1 <= isize::MAX,
    ensures
        forall|k: int|
            0 <= k < calibration::rectangle(left, top, width, height).len() ==> left <= (
            #[trigger] calibration::rectangle(left, top, width, height)[k]).0 < left + width && top
                <= calibration::rectangle(left, top, width, height)[k].1 < top + height,
        forall|x: int, y: int|
            left <= x < left + width && top <= y < top + height ==> #[trigger] calibration::rectangle(
                left,
                top,
                width,
                height,
            ).contains((x as isize, y as isize)),
    decreases width,
{
    let list = calibration::rectangle(left, top, width, height);
    if width > 0 {
        lemma_rectangle(left, top, width - 1, height);
        let before = calibration::rectangle(left, top, width - 1, height);
        let last = calibration::column(left + width - 1, top, height);
        assert(list == before + last);
        assert forall|k: int| 0 <= k < list.len() implies left <= (#[trigger] list[k]).0 < left + width && top <= list[k].1
            < top + height by {
            if k < before.len() {
                assert(list[k] == before[k]);
            } else {
                assert(list[k] == last[k - before.len()]);
            }
        }
        assert forall|x: int, y: int| left <= x < left + width && top <= y < top + height implies #[trigger] list.contains(
            (x as isize, y as isize),
        ) by {
            if x < left + width - 1 {
                assert(before.contains((x as isize, y as isize)));
                let k = choose|k: int| 0 <= k < before.len() && before[k] == (x as isize, y as isize);
                assert(list[k] == (x as isize, y as isize));
            } else {
                assert(last[y - top] == (x as isize, y as isize));
                assert(list[before.len() + (y - top)] == (x as isize, y as isize));
            }
        }
    }
}

proof fn lemma_places_around(centre: (int, int), margins: (isize, isize))
    requires
        calibration::is_roomy(centre.0, margins.0),
        calibration::is_roomy(centre.1, margins.1),
    ensures
        fills(calibration::places_around(centre, margins), centre, margins),
{
    let list = calibration::places_around(centre, margins);
    if margins.0 >= 0 && margins.1 >= 0 {
        lemma_rectangle(
            centre.0 - margins.0,
            centre.1 - margins.1,
            2 * margins.0 + 1,
            2 * margins.1 + 1,
        );
    } else {
        lemma_rectangle_empty(
            centre.0 - margins.0,
            centre.1 - margins.1,
            calibration::breadth(margins.0 as int),
            calibration::breadth(margins.1 as int),
        );
    }
    assert forall|x: int, y: int|
        -margins.0 <= x <= margins.0 && -margins.1 <= y <= margins.1 implies #[trigger] list.contains(
        ((centre.0 + x) as isize, (centre.1 + y) as isize),
    ) by {
        let (a, b) = (centre.0 + x, centre.1 + y);
        assert(calibration::rectangle(
            centre.0 - margins.0,
            centre.1 - margins.1,
            2 * margins.0 + 1,
            2 * margins.1 + 1,
        ).contains((a as isize, b as isize)));
    }
}

proof fn lemma_rectangle_empty(left: int, top: int, width: int, height: int)
    requires
        width <= 0 || height <= 0,
        height >= 0,
    ensures
        calibration::rectangle(left, top, width, height).len() == 0,
    decreases width,
{
    if width > 0 {
        lemma_rectangle_empty(left, top, width - 1, height);
        assert(calibration::column(left + width - 1, top, height).len() == height as nat);
    }
}

/// The right pattern of a family is looked for around the place where its western wire meets the
/// eastern wire of the connector, which follows the left pattern.
pub proof fn law_calibration_around_meeting_across(
    files: &PatternFiles,
    family: HorizontalMotifFamily,
    margins: (isize, isize),
    job: CalibrationJob,
)
    requires
        calibration::is_horizontal_job(Ok::<CalibrationJob, InterfaceError>(job), files, family, margins),
    ensures
        ({
            let east = stock::ends_of(stock::rows_named(files, family.connector_name@)->Some_0).east;
            let west = stock::ends_of(stock::rows_named(files, family.right_spec@)->Some_0).west;
            &&& east is Some && west is Some
            &&& job.pieces@.len() == 3
            &&& job.fixed@ == seq![(0isize, 0isize), (90isize, 0isize)]
            &&& exists|middle: (int, int)| #[trigger] fills(job.candidates@, middle, margins) && middle.0 + west->0.x
                == job.fixed@[1].0 + east->0.x && middle.1 + west->0.y == job.fixed@[1].1 + east->0.y
        }),
{
    let east = stock::ends_of(stock::rows_named(files, family.connector_name@)->Some_0).east->0;
    let west = stock::ends_of(stock::rows_named(files, family.right_spec@)->Some_0).west->0;
    let middle = (90 + east.x - west.x, east.y - west.y);
    lemma_places_around(middle, margins);
    assert(fills(job.candidates@, middle, margins));
}

/// The bottom pattern of a family is looked for around the place where its northern wire meets
/// the southern wire of the top pattern.
pub proof fn law_calibration_around_meeting_down(
    files: &PatternFiles,
    family: VerticalMotifFamily,
    margins: (isize, isize),
    job: CalibrationJob,
)
    requires
        calibration::is_vertical_job(Ok::<CalibrationJob, InterfaceError>(job), files, family, margins),
    ensures
        ({
            let south = stock::ends_of(stock::rows_named(files, family.top_spec@)->Some_0).south;
            let north = stock::ends_of(stock::rows_named(files, family.bottom_spec@)->Some_0).north;
            &&& south is Some && north is Some
            &&& job.pieces@.len() == 2
            &&& job.fixed@ == seq![(0isize, 0isize)]
            &&& exists|middle: (int, int)| #[trigger] fills(job.candidates@, middle, margins) && middle.0 + north->0.x
                == south->0.x && middle.1 + north->0.y == south->0.y
        }),
{
    let south = stock::ends_of(stock::rows_named(files, family.top_spec@)->Some_0).south->0;
    let north = stock::ends_of(stock::rows_named(files, family.bottom_spec@)->Some_0).north->0;
    let middle = (south.x - north.x, south.y - north.y);
    lemma_places_around(middle, margins);
    assert(fills(job.candidates@, middle, margins));
}

} // verus!
