//! What the audit of a board and the basis of a router list, and what they do not.

use crate::audit;
use crate::audit::{BoardMotifAuditReport, HorizontalMotifFamily, VerticalMotifFamily};
use crate::board_error::BoardError;
use crate::candidates;
use crate::compiler::ConstructionModel;
use crate::deltas;
use crate::interfaces;
use crate::interfaces::{BasisError, RouterInterfaceBasis};
use crate::layout;
use crate::meetings;
use crate::library::Alignment;
use crate::published::PatternFiles;
use crate::routing;
use crate::routing::{HorizontalInterfaceFamily, RouteDir, VerticalInterfaceFamily};
use crate::tally::Names;
use vstd::prelude::*;

verus! {

/// A piece of the basis: the name of a pattern, and the phases of its wires.
pub type Profile = (Seq<char>, Alignment);

proof fn lemma_profiles(files: &PatternFiles, names: Names, k: nat)
    requires
        k <= names.len(),
        interfaces::profiles_of(files, names, k) is Ok,
    ensures
        ({
            let list = interfaces::profiles_of(files, names, k)->Ok_0;
            &&& list.len() == k
            &&& forall|i: int|
                0 <= i < k ==> (#[trigger] list[i]).0 == names[i] && routing::stated_alignment(files, names[i]) == Ok::<
                    Alignment,
                    routing::RoutingFailure,
                >(list[i].1)
        }),
    decreases k,
{
    if k > 0 {
        lemma_profiles(files, names, (k - 1) as nat);
    }
}

/// Two profiles can stand side by side.
spec fn is_pair(left: Profile, right: Profile, pair: ((Seq<char>, i8), (Seq<char>, i8))) -> bool {
    &&& pair.0.0 == left.0
    &&& pair.1.0 == right.0
    &&& left.1.0 == Some(pair.0.1)
    &&& right.1.2 == Some(pair.1.1)
}

proof fn lemma_pairs_with(left: Profile, rights: Seq<Profile>, k: nat, pair: ((Seq<char>, i8), (Seq<char>, i8)))
    requires
        k <= rights.len(),
        interfaces::pairs_with(left, rights, k).contains(pair),
    ensures
        exists|b: int| 0 <= b < k && is_pair(left, #[trigger] rights[b], pair),
    decreases k,
{
    if k > 0 {
        let earlier = interfaces::pairs_with(left, rights, (k - 1) as nat);
        let added = interfaces::side_by_side(left, rights[k - 1]);
        let all = earlier + added;
        let i = choose|i: int| 0 <= i < all.len() && all[i] == pair;
        if i < earlier.len() {
            assert(earlier[i] == pair);
            lemma_pairs_with(left, rights, (k - 1) as nat, pair);
        } else {
            assert(added[i - earlier.len()] == pair);
            assert(is_pair(left, rights[k - 1], pair));
        }
    }
}

proof fn lemma_all_pairs(
    lefts: Seq<Profile>,
    rights: Seq<Profile>,
    k: nat,
    pair: ((Seq<char>, i8), (Seq<char>, i8)),
)
    requires
        k <= lefts.len(),
        interfaces::all_pairs(lefts, rights, k).contains(pair),
    ensures
        exists|a: int, b: int| 0 <= a < k && 0 <= b < rights.len() && is_pair(#[trigger] lefts[a], #[trigger] rights[b], pair),
    decreases k,
{
    if k > 0 {
        let earlier = interfaces::all_pairs(lefts, rights, (k - 1) as nat);
        let added = interfaces::pairs_with(lefts[k - 1], rights, rights.len());
        let all = earlier + added;
        let i = choose|i: int| 0 <= i < all.len() && all[i] == pair;
        if i < earlier.len() {
            assert(earlier[i] == pair);
            lemma_all_pairs(lefts, rights, (k - 1) as nat, pair);
        } else {
            assert(added[i - earlier.len()] == pair);
            lemma_pairs_with(lefts[k - 1], rights, rights.len(), pair);
            let b = choose|b: int| 0 <= b < rights.len() && is_pair(lefts[k - 1], #[trigger] rights[b], pair);
            assert(is_pair(lefts[k - 1], rights[b], pair));
        }
    }
}

/// Two profiles can stand one above the other.
spec fn is_stack(top: Profile, bottom: Profile, names: Names) -> bool {
    &&& names == seq![top.0, bottom.0]
    &&& top.1.3 is Some
    &&& bottom.1.1 is Some
    &&& !(top.0 == "crossing tile"@ && bottom.0 == "crossing tile"@)
}

proof fn lemma_stacks_with(top: Profile, bottoms: Seq<Profile>, k: nat, names: Names)
    requires
        k <= bottoms.len(),
        interfaces::stacks_with(top, bottoms, k).contains(names),
    ensures
        exists|b: int| 0 <= b < k && is_stack(top, #[trigger] bottoms[b], names),
    decreases k,
{
    if k > 0 {
        let earlier = interfaces::stacks_with(top, bottoms, (k - 1) as nat);
        let added = interfaces::stacked(top, bottoms[k - 1]);
        let all = earlier + added;
        let i = choose|i: int| 0 <= i < all.len() && all[i] == names;
        if i < earlier.len() {
            assert(earlier[i] == names);
            lemma_stacks_with(top, bottoms, (k - 1) as nat, names);
        } else {
            assert(added[i - earlier.len()] == names);
            assert(is_stack(top, bottoms[k - 1], names));
        }
    }
}

proof fn lemma_all_stacks(tops: Seq<Profile>, bottoms: Seq<Profile>, k: nat, names: Names)
    requires
        k <= tops.len(),
        interfaces::all_stacks(tops, bottoms, k).contains(names),
    ensures
        exists|a: int, b: int|
            0 <= a < k && 0 <= b < bottoms.len() && is_stack(#[trigger] tops[a], #[trigger] bottoms[b], names),
    decreases k,
{
    if k > 0 {
        let earlier = interfaces::all_stacks(tops, bottoms, (k - 1) as nat);
        let added = interfaces::stacks_with(tops[k - 1], bottoms, bottoms.len());
        let all = earlier + added;
        let i = choose|i: int| 0 <= i < all.len() && all[i] == names;
        if i < earlier.len() {
            assert(earlier[i] == names);
            lemma_all_stacks(tops, bottoms, (k - 1) as nat, names);
        } else {
            assert(added[i - earlier.len()] == names);
            lemma_stacks_with(tops[k - 1], bottoms, bottoms.len(), names);
            let b = choose|b: int| 0 <= b < bottoms.len() && is_stack(tops[k - 1], #[trigger] bottoms[b], names);
            assert(is_stack(tops[k - 1], bottoms[b], names));
        }
    }
}

proof fn lemma_connected(pairs: Seq<((Seq<char>, i8), (Seq<char>, i8))>, k: nat, names: Names)
    requires
        k <= pairs.len(),
        interfaces::connected_pairs(pairs, k) is Ok,
        interfaces::connected_pairs(pairs, k)->Ok_0.contains(names),
    ensures
        exists|i: int|
            0 <= i < k && names.len() == 3 && names[0] == (#[trigger] pairs[i]).0.0 && names[2] == pairs[i].1.0
                && routing::connector_for(pairs[i].0.1, pairs[i].1.1) == Some(names[1]),
    decreases k,
{
    if k > 0 {
        let earlier = interfaces::connected_pairs(pairs, (k - 1) as nat)->Ok_0;
        let all = interfaces::connected_pairs(pairs, k)->Ok_0;
        let i = choose|i: int| 0 <= i < all.len() && all[i] == names;
        if i < earlier.len() {
            assert(earlier[i] == names);
            lemma_connected(pairs, (k - 1) as nat, names);
        } else {
            assert(names[0] == pairs[k - 1].0.0);
        }
    }
}

/// Which patterns the basis sets beside each other: routing tiles with each other, and instances
/// with a straight wire.
pub open spec fn are_set_together(one: Seq<char>, other: Seq<char>, wire: Seq<char>) -> bool {
    ||| interfaces::routing_names().contains(one) && interfaces::routing_names().contains(other)
    ||| interfaces::macro_names().contains(one) && other == wire
    ||| one == wire && interfaces::macro_names().contains(other)
}

/// Two profiles are set beside each other: two tiles, or an instance and a wire.
spec fn are_chosen(one: Profile, other: Profile, tiles: Seq<Profile>, macros: Seq<Profile>, wire: Profile) -> bool {
    ||| tiles.contains(one) && tiles.contains(other)
    ||| macros.contains(one) && other == wire
    ||| one == wire && macros.contains(other)
}

proof fn lemma_basis_pair(
    tiles: Seq<Profile>,
    macros: Seq<Profile>,
    wire: Profile,
    pair: ((Seq<char>, i8), (Seq<char>, i8)),
)
    requires
        interfaces::basis_pairs(tiles, macros, wire).contains(pair),
    ensures
        exists|a: Profile, b: Profile| #[trigger] is_pair(a, b, pair) && are_chosen(a, b, tiles, macros, wire),
{
    let pairs = interfaces::basis_pairs(tiles, macros, wire);
    let one = interfaces::all_pairs(tiles, tiles, tiles.len());
    let two = interfaces::all_pairs(macros, seq![wire], macros.len());
    let three = interfaces::all_pairs(seq![wire], macros, 1);
    assert(pairs == one + two + three);
    let i = choose|i: int| 0 <= i < pairs.len() && pairs[i] == pair;
    if i < one.len() {
        assert(one[i] == pair);
        lemma_all_pairs(tiles, tiles, tiles.len(), pair);
        let (a, b) = choose|a: int, b: int|
            0 <= a < tiles.len() && 0 <= b < tiles.len() && is_pair(#[trigger] tiles[a], #[trigger] tiles[b], pair);
        assert(is_pair(tiles[a], tiles[b], pair) && are_chosen(tiles[a], tiles[b], tiles, macros, wire));
    } else if i < one.len() + two.len() {
        assert(two[i - one.len()] == pair);
        lemma_all_pairs(macros, seq![wire], macros.len(), pair);
        let (a, b) = choose|a: int, b: int|
            0 <= a < macros.len() && 0 <= b < 1 && is_pair(#[trigger] macros[a], #[trigger] seq![wire][b], pair);
        assert(is_pair(macros[a], wire, pair) && are_chosen(macros[a], wire, tiles, macros, wire));
    } else {
        assert(three[i - one.len() - two.len()] == pair);
        lemma_all_pairs(seq![wire], macros, 1, pair);
        let (a, b) = choose|a: int, b: int|
            0 <= a < 1 && 0 <= b < macros.len() && is_pair(#[trigger] seq![wire][a], #[trigger] macros[b], pair);
        assert(is_pair(wire, macros[b], pair) && are_chosen(wire, macros[b], tiles, macros, wire));
    }
}

proof fn lemma_basis_stack(tiles: Seq<Profile>, macros: Seq<Profile>, wire: Profile, names: Names)
    requires
        interfaces::basis_stacks(tiles, macros, wire).contains(names),
    ensures
        exists|a: Profile, b: Profile| #[trigger] is_stack(a, b, names) && are_chosen(a, b, tiles, macros, wire),
{
    let stacks = interfaces::basis_stacks(tiles, macros, wire);
    let one = interfaces::all_stacks(tiles, tiles, tiles.len());
    let two = interfaces::all_stacks(macros, seq![wire], macros.len());
    let three = interfaces::all_stacks(seq![wire], macros, 1);
    assert(stacks == one + two + three);
    let i = choose|i: int| 0 <= i < stacks.len() && stacks[i] == names;
    if i < one.len() {
        assert(one[i] == names);
        lemma_all_stacks(tiles, tiles, tiles.len(), names);
        let (a, b) = choose|a: int, b: int|
            0 <= a < tiles.len() && 0 <= b < tiles.len() && is_stack(#[trigger] tiles[a], #[trigger] tiles[b], names);
        assert(is_stack(tiles[a], tiles[b], names) && are_chosen(tiles[a], tiles[b], tiles, macros, wire));
    } else if i < one.len() + two.len() {
        assert(two[i - one.len()] == names);
        lemma_all_stacks(macros, seq![wire], macros.len(), names);
        let (a, b) = choose|a: int, b: int|
            0 <= a < macros.len() && 0 <= b < 1 && is_stack(#[trigger] macros[a], #[trigger] seq![wire][b], names);
        assert(is_stack(macros[a], wire, names) && are_chosen(macros[a], wire, tiles, macros, wire));
    } else {
        assert(three[i - one.len() - two.len()] == names);
        lemma_all_stacks(seq![wire], macros, 1, names);
        let (a, b) = choose|a: int, b: int|
            0 <= a < 1 && 0 <= b < macros.len() && is_stack(#[trigger] seq![wire][a], #[trigger] macros[b], names);
        assert(is_stack(wire, macros[b], names) && are_chosen(wire, macros[b], tiles, macros, wire));
    }
}

proof fn lemma_chosen(files: &PatternFiles, a: Profile, b: Profile, tiles: Seq<Profile>, macros: Seq<Profile>, w: int)
    requires
        interfaces::profiles_of(files, interfaces::routing_names(), interfaces::routing_names().len()) == Ok::<
            Seq<Profile>,
            interfaces::BasisFailure,
        >(tiles),
        interfaces::profiles_of(files, interfaces::macro_names(), interfaces::macro_names().len()) == Ok::<
            Seq<Profile>,
            interfaces::BasisFailure,
        >(macros),
        0 <= w < interfaces::routing_names().len(),
        are_chosen(a, b, tiles, macros, tiles[w]),
    ensures
        are_set_together(a.0, b.0, interfaces::routing_names()[w]),
        routing::stated_alignment(files, a.0) == Ok::<Alignment, routing::RoutingFailure>(a.1),
        routing::stated_alignment(files, b.0) == Ok::<Alignment, routing::RoutingFailure>(b.1),
{
    let (tile_names, macro_names) = (interfaces::routing_names(), interfaces::macro_names());
    lemma_profiles(files, tile_names, tile_names.len());
    lemma_profiles(files, macro_names, macro_names.len());
    assert(tiles[w].0 == tile_names[w]);
    assert forall|p: Profile| #[trigger] tiles.contains(p) implies tile_names.contains(p.0) && routing::stated_alignment(
        files,
        p.0,
    ) == Ok::<Alignment, routing::RoutingFailure>(p.1) by {
        let i = choose|i: int| 0 <= i < tiles.len() && tiles[i] == p;
        assert(tiles[i].0 == tile_names[i]);
    }
    assert forall|p: Profile| #[trigger] macros.contains(p) implies macro_names.contains(p.0) && routing::stated_alignment(
        files,
        p.0,
    ) == Ok::<Alignment, routing::RoutingFailure>(p.1) by {
        let i = choose|i: int| 0 <= i < macros.len() && macros[i] == p;
        assert(macros[i].0 == macro_names[i]);
    }
}

/// The basis lists nothing that cannot be built: in each family across, the connector fits the
/// wires that it joins; in each family down, the upper pattern has a wire in the south and the lower
/// one in the north, and no crossing stands on another.
pub proof fn law_basis_can_be_built(files: &PatternFiles, basis: RouterInterfaceBasis, k: int)
    requires
        interfaces::is_basis_result(files, Ok::<RouterInterfaceBasis, BasisError>(basis)),
    ensures
        0 <= k < basis.horizontal@.len() ==> ({
            let family = basis.horizontal@[k];
            &&& routing::connector_between(files, family.left_spec_name@, family.right_spec_name@) == Ok::<
                Seq<char>,
                routing::RoutingFailure,
            >(family.connector_spec_name@)
            &&& are_set_together(family.left_spec_name@, family.right_spec_name@, "horizontal wire tile"@)
        }),
        0 <= k < basis.vertical@.len() ==> ({
            let family = basis.vertical@[k];
            &&& routing::wire_phase(files, family.top_spec_name@, RouteDir::S) is Ok
            &&& routing::wire_phase(files, family.bottom_spec_name@, RouteDir::N) is Ok
            &&& are_set_together(family.top_spec_name@, family.bottom_spec_name@, "vertical wire tile"@)
            &&& !(family.top_spec_name@ == "crossing tile"@ && family.bottom_spec_name@ == "crossing tile"@)
        }),
{
    let (tile_names, macro_names) = (interfaces::routing_names(), interfaces::macro_names());
    let tiles = interfaces::profiles_of(files, tile_names, tile_names.len())->Ok_0;
    let macros = interfaces::profiles_of(files, macro_names, macro_names.len())->Ok_0;
    if 0 <= k < basis.horizontal@.len() {
        let pairs = interfaces::basis_pairs(tiles, macros, tiles[0]);
        let family = basis.horizontal@[k];
        let names = routing::horizontal_family_names(family);
        assert(interfaces::connected_pairs(pairs, pairs.len())->Ok_0.contains(names));
        lemma_connected(pairs, pairs.len(), names);
        let i = choose|i: int|
            0 <= i < pairs.len() && names.len() == 3 && names[0] == (#[trigger] pairs[i]).0.0 && names[2] == pairs[i].1.0
                && routing::connector_for(pairs[i].0.1, pairs[i].1.1) == Some(names[1]);
        let pair = pairs[i];
        assert(pairs.contains(pair));
        lemma_basis_pair(tiles, macros, tiles[0], pair);
        let (a, b) = choose|a: Profile, b: Profile| #[trigger]
            is_pair(a, b, pair) && are_chosen(a, b, tiles, macros, tiles[0]);
        lemma_chosen(files, a, b, tiles, macros, 0);
        assert(names[0] == family.left_spec_name@ && names[1] == family.connector_spec_name@ && names[2]
            == family.right_spec_name@);
    }
    if 0 <= k < basis.vertical@.len() {
        let family = basis.vertical@[k];
        let names = routing::vertical_family_names(family);
        assert(interfaces::basis_stacks(tiles, macros, tiles[1]).contains(names));
        lemma_basis_stack(tiles, macros, tiles[1], names);
        let (a, b) = choose|a: Profile, b: Profile| #[trigger]
            is_stack(a, b, names) && are_chosen(a, b, tiles, macros, tiles[1]);
        lemma_chosen(files, a, b, tiles, macros, 1);
        assert(names[0] == family.top_spec_name@ && names[1] == family.bottom_spec_name@);
    }
}

proof fn lemma_unresolved_across(families: Seq<HorizontalMotifFamily>, k: nat, family: HorizontalMotifFamily)
    requires
        k <= families.len(),
    ensures
        audit::unresolved_across(families, k).contains(family) <==> !family.calibrated && exists|i: int|
            0 <= i < k && #[trigger] families[i] == family,
    decreases k,
{
    if k > 0 {
        lemma_unresolved_across(families, (k - 1) as nat, family);
        let earlier = audit::unresolved_across(families, (k - 1) as nat);
        let list = audit::unresolved_across(families, k);
        if !families[k - 1].calibrated {
            if earlier.contains(family) {
                let i = choose|i: int| 0 <= i < earlier.len() && earlier[i] == family;
                assert(list[i] == family);
            }
            if families[k - 1] == family {
                assert(list[list.len() - 1] == family);
            }
            if list.contains(family) && families[k - 1] != family {
                let i = choose|i: int| 0 <= i < list.len() && list[i] == family;
                assert(earlier[i] == family);
            }
        }
    }
}

proof fn lemma_unresolved_down(families: Seq<VerticalMotifFamily>, k: nat, family: VerticalMotifFamily)
    requires
        k <= families.len(),
    ensures
        audit::unresolved_down(families, k).contains(family) <==> !family.calibrated && exists|i: int|
            0 <= i < k && #[trigger] families[i] == family,
    decreases k,
{
    if k > 0 {
        lemma_unresolved_down(families, (k - 1) as nat, family);
        let earlier = audit::unresolved_down(families, (k - 1) as nat);
        let list = audit::unresolved_down(families, k);
        if !families[k - 1].calibrated {
            if earlier.contains(family) {
                let i = choose|i: int| 0 <= i < earlier.len() && earlier[i] == family;
                assert(list[i] == family);
            }
            if families[k - 1] == family {
                assert(list[list.len() - 1] == family);
            }
            if list.contains(family) && families[k - 1] != family {
                let i = choose|i: int| 0 <= i < list.len() && list[i] == family;
                assert(earlier[i] == family);
            }
        }
    }
}

/// The unresolved families of an audit are those that are not calibrated.
pub proof fn law_unresolved_families(
    report: BoardMotifAuditReport,
    across: HorizontalMotifFamily,
    down: VerticalMotifFamily,
)
    ensures
        audit::unresolved_across(report.horizontal@, report.horizontal@.len()).contains(across) <==> !across.calibrated
            && report.horizontal@.contains(across),
        audit::unresolved_down(report.vertical@, report.vertical@.len()).contains(down) <==> !down.calibrated
            && report.vertical@.contains(down),
{
    lemma_unresolved_across(report.horizontal@, report.horizontal@.len(), across);
    lemma_unresolved_down(report.vertical@, report.vertical@.len(), down);
    if report.horizontal@.contains(across) {
        let i = choose|i: int| 0 <= i < report.horizontal@.len() && report.horizontal@[i] == across;
        assert(report.horizontal@[i] == across);
    }
    if report.vertical@.contains(down) {
        let i = choose|i: int| 0 <= i < report.vertical@.len() && report.vertical@[i] == down;
        assert(report.vertical@[i] == down);
    }
}

/// A family is calibrated if and only if there is a place at which its patterns are known to fit, and
/// then the board tries that place; where it is not, the board has only the place where the wires
/// meet, and those along the wire from there.
pub proof fn law_calibrated_families(
    files: &PatternFiles,
    c: ConstructionModel,
    report: BoardMotifAuditReport,
    k: int,
)
    requires
        audit::is_audit_result(files, c, Ok::<BoardMotifAuditReport, BoardError>(report)),
    ensures
        0 <= k < report.horizontal@.len() ==> ({
            let family = report.horizontal@[k];
            let link = deltas::link_across(files, family.left_spec@, family.right_spec@);
            &&& family.calibrated <==> exists|place: (i32, i32)| #[trigger]
                candidates::known_right_deltas(
                    family.left_spec@,
                    family.connector_name@,
                    family.right_spec@,
                ).contains(place)
            &&& !family.calibrated && link is Ok && link->Ok_0.connector == family.connector_name@ ==> forall|i: int|
                0 <= i < link->Ok_0.candidates.len() ==> slides_along(
                    #[trigger] link->Ok_0.candidates[i].right_delta,
                    link->Ok_0.default.right_delta,
                    true,
                )
        }),
        0 <= k < report.vertical@.len() ==> ({
            let family = report.vertical@[k];
            let link = deltas::link_down(files, family.top_spec@, family.bottom_spec@);
            &&& family.calibrated <==> exists|place: (i32, i32)| #[trigger]
                candidates::known_bottom_deltas(family.top_spec@, family.bottom_spec@).contains(place)
            &&& !family.calibrated && link is Ok ==> forall|i: int|
                0 <= i < link->Ok_0.candidates.len() ==> slides_along(
                    #[trigger] link->Ok_0.candidates[i].right_delta,
                    link->Ok_0.default.right_delta,
                    false,
                )
        }),
{
    let model = layout::layout_of(c)->Ok_0;
    let wide = layout::seam_order(c, model, RouteDir::E);
    let across = audit::motifs_across(files, model.pieces, wide, wide.len())->Ok_0;
    if 0 <= k < report.horizontal@.len() {
        let family = report.horizontal@[k];
        assert(audit::is_across_motif(family, across));
        let known = candidates::known_right_deltas(family.left_spec@, family.connector_name@, family.right_spec@);
        if known.len() > 0 {
            assert(known.contains(known[0]));
        }
        let link = deltas::link_across(files, family.left_spec@, family.right_spec@);
        if link is Ok {
            meetings::law_linked_wires_meet_across(files, family.left_spec@, family.right_spec@);
        }
    }
    if 0 <= k < report.vertical@.len() {
        let family = report.vertical@[k];
        let high = layout::seam_order(c, model, RouteDir::S);
        assert(audit::is_down_motif(family, audit::motifs_down(model.pieces, high)));
        let known = candidates::known_bottom_deltas(family.top_spec@, family.bottom_spec@);
        if known.len() > 0 {
            assert(known.contains(known[0]));
        }
        let link = deltas::link_down(files, family.top_spec@, family.bottom_spec@);
        if link is Ok {
            meetings::law_linked_wires_meet_down(files, family.top_spec@, family.bottom_spec@);
        }
    }
}

/// A place lies along a wire from another, at most a few periods away.
pub open spec fn slides_along(place: (i32, i32), from: (i32, i32), level: bool) -> bool {
    if level {
        meetings::is_slide(place.0 - from.0, 6) && place.1 == from.1
    } else {
        meetings::is_slide(place.1 - from.1, 6) && place.0 == from.0
    }
}

/// The labels that are missing are those that are required and not there.
pub proof fn law_missing_labels(required: Seq<Seq<char>>, have: Seq<Seq<char>>, k: nat, label: Seq<char>)
    requires
        k <= required.len(),
    ensures
        interfaces::missing_labels(required, have, k).contains(label) <==> !have.contains(label) && exists|i: int|
            0 <= i < k && #[trigger] required[i] == label,
    decreases k,
{
    if k > 0 {
        law_missing_labels(required, have, (k - 1) as nat, label);
        let earlier = interfaces::missing_labels(required, have, (k - 1) as nat);
        let list = interfaces::missing_labels(required, have, k);
        if !have.contains(required[k - 1]) {
            if earlier.contains(label) {
                let i = choose|i: int| 0 <= i < earlier.len() && earlier[i] == label;
                assert(list[i] == label);
            }
            if required[k - 1] == label {
                assert(list[list.len() - 1] == label);
            }
            if list.contains(label) && required[k - 1] != label {
                let i = choose|i: int| 0 <= i < list.len() && list[i] == label;
                assert(earlier[i] == label);
            }
        }
    }
}

/// A filter leaves the families across whose label has the filter's text in it; without a filter, all.
pub proof fn law_filtered_across(
    families: Seq<HorizontalInterfaceFamily>,
    filter: Option<Seq<char>>,
    k: nat,
    family: HorizontalInterfaceFamily,
)
    requires
        k <= families.len(),
    ensures
        interfaces::filtered_across(families, filter, k).contains(family) <==> (filter matches Some(part)
            ==> interfaces::holds_part(
            family.left_spec_name@ + " --"@ + family.connector_spec_name@ + "--> "@ + family.right_spec_name@,
            part,
        )) && exists|i: int| 0 <= i < k && #[trigger] families[i] == family,
    decreases k,
{
    let list = interfaces::filtered_across(families, filter, k);
    if k > 0 {
        law_filtered_across(families, filter, (k - 1) as nat, family);
        let earlier = interfaces::filtered_across(families, filter, (k - 1) as nat);
        let last = families[k - 1];
        let label = interfaces::across_label(routing::horizontal_family_names(last));
        assert(label == last.left_spec_name@ + " --"@ + last.connector_spec_name@ + "--> "@ + last.right_spec_name@);
        if interfaces::passes(label, filter) {
            if earlier.contains(family) {
                let i = choose|i: int| 0 <= i < earlier.len() && earlier[i] == family;
                assert(list[i] == family);
            }
            if last == family {
                assert(list[list.len() - 1] == family);
            }
            if list.contains(family) && last != family {
                let i = choose|i: int| 0 <= i < list.len() && list[i] == family;
                assert(earlier[i] == family);
            }
        }
    }
}

/// A filter leaves the families down whose label has the filter's text in it; without a filter, all.
pub proof fn law_filtered_down(
    families: Seq<VerticalInterfaceFamily>,
    filter: Option<Seq<char>>,
    k: nat,
    family: VerticalInterfaceFamily,
)
    requires
        k <= families.len(),
    ensures
        interfaces::filtered_down(families, filter, k).contains(family) <==> (filter matches Some(part)
            ==> interfaces::holds_part(family.top_spec_name@ + " / "@ + family.bottom_spec_name@, part)) && exists|i: int|
            0 <= i < k && #[trigger] families[i] == family,
    decreases k,
{
    let list = interfaces::filtered_down(families, filter, k);
    if k > 0 {
        law_filtered_down(families, filter, (k - 1) as nat, family);
        let earlier = interfaces::filtered_down(families, filter, (k - 1) as nat);
        let last = families[k - 1];
        let label = interfaces::down_label(routing::vertical_family_names(last));
        assert(label == last.top_spec_name@ + " / "@ + last.bottom_spec_name@);
        if interfaces::passes(label, filter) {
            if earlier.contains(family) {
                let i = choose|i: int| 0 <= i < earlier.len() && earlier[i] == family;
                assert(list[i] == family);
            }
            if last == family {
                assert(list[list.len() - 1] == family);
            }
            if list.contains(family) && last != family {
                let i = choose|i: int| 0 <= i < list.len() && list[i] == family;
                assert(earlier[i] == family);
            }
        }
    }
}

} // verus!
