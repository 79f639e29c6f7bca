//! The motifs of a board: which pieces stand beside each other, and whether the distance
//! between them is known.

use crate::board_error::{BoardError, BoardFailure};
use crate::candidates;
use crate::candidates::{known_horizontal_placement_candidates, known_vertical_placement_candidates};
use crate::cellmap;
use crate::cellmap::{Place, PlaceMap};
use crate::compiler::{CompiledConstruction, ConstructionModel};
use crate::deltas;
use crate::deltas::connector_between;
use crate::lanes;
use crate::layout;
use crate::layout::{prepare_layout, BoardLayout, LayoutModel};
use crate::library;
use crate::published::PatternFiles;
use crate::routing;
use crate::routing::{
    count_horizontal_families, count_vertical_families, HorizontalInterface, HorizontalInterfaceFamily, RouteDir,
    VerticalInterface, VerticalInterfaceFamily,
};
use crate::stock;
use crate::stock::PublishedLibrary;
use crate::tally;
use crate::tally::Names;
use crate::text;
use crate::text::push_usize;
use vstd::prelude::*;

verus! {

/// Two pieces beside each other with their connector, how often they occur, and whether
/// their distance is known.
#[derive(Debug, Clone, PartialEq, Eq, PartialOrd, Ord)]
pub struct HorizontalMotifFamily {
    pub left_spec: String,
    pub connector_name: String,
    pub right_spec: String,
    pub count: usize,
    pub calibrated: bool,
}

/// Two pieces below each other, how often they occur, and whether their distance is known.
#[derive(Debug, Clone, PartialEq, Eq, PartialOrd, Ord)]
pub struct VerticalMotifFamily {
    pub top_spec: String,
    pub bottom_spec: String,
    pub count: usize,
    pub calibrated: bool,
}

/// The motifs of a board.
#[derive(Debug, Clone, PartialEq, Eq)]
pub struct BoardMotifAuditReport {
    pub horizontal: Vec<HorizontalMotifFamily>,
    pub vertical: Vec<VerticalMotifFamily>,
}

/// The pieces that are linked at a place to the piece in its east, and their connector.
pub open spec fn motif_across(
    files: &PatternFiles,
    pieces: Map<Place, Seq<char>>,
    place: Place,
) -> Result<Names, BoardFailure> {
    let left = pieces[place];
    let right = pieces[lanes::moved(place, RouteDir::E)];
    match stock::rows_named(files, left) {
        None => Err(BoardFailure::UnknownSpec(left)),
        Some(left_rows) => match stock::rows_named(files, right) {
            None => Err(BoardFailure::UnknownSpec(right)),
            Some(right_rows) => match deltas::joining(left_rows, right_rows) {
                Err(failure) => Err(failure),
                Ok(connector) => Ok(seq![left, connector, right]),
            },
        },
    }
}

/// The motifs at the first `k` places, from west to east.
pub open spec fn motifs_across(
    files: &PatternFiles,
    pieces: Map<Place, Seq<char>>,
    order: Seq<Place>,
    k: nat,
) -> Result<Seq<Names>, BoardFailure>
    decreases k,
{
    if k == 0 {
        Ok(Seq::empty())
    } else {
        match motifs_across(files, pieces, order, (k - 1) as nat) {
            Err(failure) => Err(failure),
            Ok(earlier) => match motif_across(files, pieces, order[k - 1]) {
                Err(failure) => Err(failure),
                Ok(names) => Ok(earlier.push(names)),
            },
        }
    }
}

/// The motifs from north to south.
pub open spec fn motifs_down(pieces: Map<Place, Seq<char>>, order: Seq<Place>) -> Seq<Names> {
    Seq::new(order.len(), |i: int| seq![pieces[order[i]], pieces[lanes::moved(order[i], RouteDir::S)]])
}

/// The names of a motif.
pub open spec fn across_names(family: HorizontalMotifFamily) -> Names {
    seq![family.left_spec@, family.connector_name@, family.right_spec@]
}

/// The names of a motif.
pub open spec fn down_names(family: VerticalMotifFamily) -> Names {
    seq![family.top_spec@, family.bottom_spec@]
}

/// The motif occurs as often as stated, and its distance is known if stated.
pub open spec fn is_across_motif(family: HorizontalMotifFamily, list: Seq<Names>) -> bool {
    &&& family.count == tally::occurrences(list, across_names(family))
    &&& family.count > 0
    &&& family.calibrated == (candidates::known_across(
        family.left_spec@,
        family.connector_name@,
        family.right_spec@,
    ).len() > 0)
}

/// The motif occurs as often as stated, and its distance is known if stated.
pub open spec fn is_down_motif(family: VerticalMotifFamily, list: Seq<Names>) -> bool {
    &&& family.count == tally::occurrences(list, down_names(family))
    &&& family.count > 0
    &&& family.calibrated == (candidates::known_down(family.top_spec@, family.bottom_spec@).len() > 0)
}

/// The motifs that occur, in the order of their names.
pub open spec fn are_across_motifs(families: Seq<HorizontalMotifFamily>, list: Seq<Names>) -> bool {
    &&& forall|i: int, j: int| #![trigger families[i], families[j]]
        0 <= i < j < families.len() ==> tally::names_less(across_names(families[i]), across_names(families[j]))
    &&& forall|i: int| 0 <= i < families.len() ==> is_across_motif(#[trigger] families[i], list)
    &&& forall|key: Names| #[trigger]
        list.contains(key) ==> exists|i: int| 0 <= i < families.len() && across_names(#[trigger] families[i]) == key
}

/// The motifs that occur, in the order of their names.
pub open spec fn are_down_motifs(families: Seq<VerticalMotifFamily>, list: Seq<Names>) -> bool {
    &&& forall|i: int, j: int| #![trigger families[i], families[j]]
        0 <= i < j < families.len() ==> tally::names_less(down_names(families[i]), down_names(families[j]))
    &&& forall|i: int| 0 <= i < families.len() ==> is_down_motif(#[trigger] families[i], list)
    &&& forall|key: Names| #[trigger]
        list.contains(key) ==> exists|i: int| 0 <= i < families.len() && down_names(#[trigger] families[i]) == key
}

/// A result is the failure.
pub open spec fn audit_fails(result: Result<BoardMotifAuditReport, BoardError>, failure: BoardFailure) -> bool {
    result matches Err(error) && error@ == failure
}

/// The result of listing the motifs of a layout.
pub open spec fn is_motif_result(
    files: &PatternFiles,
    c: ConstructionModel,
    model: LayoutModel,
    result: Result<BoardMotifAuditReport, BoardError>,
) -> bool {
    let wide = layout::seam_order(c, model, RouteDir::E);
    match motifs_across(files, model.pieces, wide, wide.len()) {
        Err(failure) => audit_fails(result, failure),
        Ok(across) => result matches Ok(report) && are_across_motifs(report.horizontal@, across) && are_down_motifs(
            report.vertical@,
            motifs_down(model.pieces, layout::seam_order(c, model, RouteDir::S)),
        ),
    }
}

/// The result of listing the motifs of the board of a construction.
pub open spec fn is_audit_result(
    files: &PatternFiles,
    c: ConstructionModel,
    result: Result<BoardMotifAuditReport, BoardError>,
) -> bool {
    match stock::load_failure(files, library::part1_table().len()) {
        Some(failure) => audit_fails(result, BoardFailure::Pattern(failure)),
        None => match layout::layout_of(c) {
            Err(failure) => audit_fails(result, failure),
            Ok(model) => is_motif_result(files, c, model, result),
        },
    }
}

proof fn lemma_motifs_fail(
    files: &PatternFiles,
    pieces: Map<Place, Seq<char>>,
    order: Seq<Place>,
    j: nat,
    k: nat,
)
    requires
        j <= k,
        motifs_across(files, pieces, order, j) is Err,
    ensures
        motifs_across(files, pieces, order, k) == motifs_across(files, pieces, order, j),
    decreases k,
{
    if j < k {
        lemma_motifs_fail(files, pieces, order, j, (k - 1) as nat);
    }
}

/// The motifs from west to east, one for each link.
fn list_across(
    stock: &PublishedLibrary,
    files: Ghost<&PatternFiles>,
    pieces: &PlaceMap<&'static str>,
    order: &Vec<(i32, i32)>,
) -> (result: Result<Vec<HorizontalInterface>, BoardError>)
    requires
        stock.wf(files@),
        layout::links_pieces(lanes::places(order@), RouteDir::E, routing::piece_texts(pieces@)),
    ensures
        match motifs_across(files@, routing::piece_texts(pieces@), lanes::places(order@), order@.len()) {
            Ok(names) => result matches Ok(list) && list@.len() == names.len() && (forall|i: int|
                0 <= i < list@.len() ==> routing::horizontal_names(#[trigger] list@[i]) == names[i]),
            Err(failure) => result matches Err(error) && error@ == failure,
        },
{
    let ghost texts = routing::piece_texts(pieces@);
    let ghost way = lanes::places(order@);
    let mut list: Vec<HorizontalInterface> = Vec::new();
    let ghost mut names: Seq<Names> = Seq::empty();
    let mut k: usize = 0;
    while k < order.len()
        invariant
            k <= order@.len(),
            stock.wf(files@),
            texts == routing::piece_texts(pieces@),
            way == lanes::places(order@),
            layout::links_pieces(way, RouteDir::E, texts),
            motifs_across(files@, texts, way, k as nat) == Ok::<Seq<Names>, BoardFailure>(names),
            list@.len() == k,
            names.len() == k,
            forall|i: int| 0 <= i < k ==> routing::horizontal_names(#[trigger] list@[i]) == names[i],
        decreases order.len() - k,
    {
        let left: (i32, i32) = order[k];
        assert(way[k as int] == cellmap::place_of(left));
        assert(way.contains(way[k as int]));
        let right: (i32, i32) = (left.0 + 1, left.1);
        assert(cellmap::place_of(right) == lanes::moved(way[k as int], RouteDir::E));
        assert(pieces@.contains_key(cellmap::place_of(left)) && pieces@.contains_key(cellmap::place_of(right)));
        proof {
            if motif_across(files@, texts, way[k as int]) is Err {
                lemma_motifs_fail(files@, texts, way, (k + 1) as nat, way.len());
            }
        }
        let left_spec_name: &'static str = match pieces.get(left) {
            Some(name) => name,
            None => "",
        };
        let right_spec_name: &'static str = match pieces.get(right) {
            Some(name) => name,
            None => "",
        };
        let left_at: usize = match stock.find(files, left_spec_name) {
            Some(i) => i,
            None => {
                return Err(BoardError::UnknownSpec { name: left_spec_name });
            },
        };
        let right_at: usize = match stock.find(files, right_spec_name) {
            Some(i) => i,
            None => {
                return Err(BoardError::UnknownSpec { name: right_spec_name });
            },
        };
        match connector_between(stock, left_at, right_at, files) {
            Ok(connector_spec_name) => {
                list.push(
                    HorizontalInterface { left, right, left_spec_name, connector_spec_name, right_spec_name },
                );
                proof {
                    let found = seq![left_spec_name@, connector_spec_name@, right_spec_name@];
                    assert(motif_across(files@, texts, way[k as int]) == Ok::<Names, BoardFailure>(found));
                    names = names.push(found);
                }
            },
            Err(error) => {
                return Err(error);
            },
        }
        k += 1;
    }
    Ok(list)
}

/// The motifs from north to south, one for each link.
fn list_down(pieces: &PlaceMap<&'static str>, order: &Vec<(i32, i32)>) -> (list: Vec<VerticalInterface>)
    requires
        layout::links_pieces(lanes::places(order@), RouteDir::S, routing::piece_texts(pieces@)),
    ensures
        list@.len() == order@.len(),
        forall|i: int|
            0 <= i < list@.len() ==> routing::vertical_names(#[trigger] list@[i]) == motifs_down(
                routing::piece_texts(pieces@),
                lanes::places(order@),
            )[i],
{
    let ghost texts = routing::piece_texts(pieces@);
    let ghost way = lanes::places(order@);
    let mut list: Vec<VerticalInterface> = Vec::new();
    let mut k: usize = 0;
    while k < order.len()
        invariant
            k <= order@.len(),
            texts == routing::piece_texts(pieces@),
            way == lanes::places(order@),
            layout::links_pieces(way, RouteDir::S, texts),
            list@.len() == k,
            forall|i: int| 0 <= i < k ==> routing::vertical_names(#[trigger] list@[i]) == motifs_down(texts, way)[i],
        decreases order.len() - k,
    {
        let top: (i32, i32) = order[k];
        assert(way[k as int] == cellmap::place_of(top));
        assert(way.contains(way[k as int]));
        let bottom: (i32, i32) = (top.0, top.1 + 1);
        assert(cellmap::place_of(bottom) == lanes::moved(way[k as int], RouteDir::S));
        assert(pieces@.contains_key(cellmap::place_of(top)) && pieces@.contains_key(cellmap::place_of(bottom)));
        let top_spec_name: &'static str = match pieces.get(top) {
            Some(name) => name,
            None => "",
        };
        let bottom_spec_name: &'static str = match pieces.get(bottom) {
            Some(name) => name,
            None => "",
        };
        list.push(VerticalInterface { top, bottom, top_spec_name, bottom_spec_name });
        assert(routing::vertical_names(list@[k as int]) =~= motifs_down(texts, way)[k as int]);
        k += 1;
    }
    list
}

/// The motifs with their calibration.
fn rate_across(families: &Vec<HorizontalInterfaceFamily>, list: Ghost<Seq<Names>>) -> (rated: Vec<HorizontalMotifFamily>)
    requires
        routing::are_horizontal_families(families@, list@),
    ensures
        are_across_motifs(rated@, list@),
{
    let mut rated: Vec<HorizontalMotifFamily> = Vec::new();
    let mut k: usize = 0;
    while k < families.len()
        invariant
            k <= families@.len(),
            routing::are_horizontal_families(families@, list@),
            rated@.len() == k,
            forall|i: int|
                0 <= i < k ==> across_names(#[trigger] rated@[i]) == routing::horizontal_family_names(families@[i])
                    && is_across_motif(rated@[i], list@),
        decreases families.len() - k,
    {
        let family: HorizontalInterfaceFamily = families[k];
        let calibrated: bool = known_horizontal_placement_candidates(
            family.left_spec_name,
            family.connector_spec_name,
            family.right_spec_name,
        ).len() > 0;
        rated.push(
            HorizontalMotifFamily {
                left_spec: family.left_spec_name.to_owned(),
                connector_name: family.connector_spec_name.to_owned(),
                right_spec: family.right_spec_name.to_owned(),
                count: family.count,
                calibrated,
            },
        );
        assert(across_names(rated@[k as int]) =~= routing::horizontal_family_names(families@[k as int]));
        k += 1;
    }
    proof {
        assert forall|i: int, j: int| #![trigger rated@[i], rated@[j]] 0 <= i < j < rated@.len() implies tally::names_less(
            across_names(rated@[i]),
            across_names(rated@[j]),
        ) by {
            assert(tally::names_less(
                routing::horizontal_family_names(families@[i]),
                routing::horizontal_family_names(families@[j]),
            ));
        }
        assert forall|key: Names| #[trigger] list@.contains(key) implies exists|i: int|
            0 <= i < rated@.len() && across_names(#[trigger] rated@[i]) == key by {
            let i = choose|i: int|
                0 <= i < families@.len() && routing::horizontal_family_names(#[trigger] families@[i]) == key;
            assert(across_names(rated@[i]) == key);
        }
    }
    rated
}

/// The motifs with their calibration.
fn rate_down(families: &Vec<VerticalInterfaceFamily>, list: Ghost<Seq<Names>>) -> (rated: Vec<VerticalMotifFamily>)
    requires
        routing::are_vertical_families(families@, list@),
    ensures
        are_down_motifs(rated@, list@),
{
    let mut rated: Vec<VerticalMotifFamily> = Vec::new();
    let mut k: usize = 0;
    while k < families.len()
        invariant
            k <= families@.len(),
            routing::are_vertical_families(families@, list@),
            rated@.len() == k,
            forall|i: int|
                0 <= i < k ==> down_names(#[trigger] rated@[i]) == routing::vertical_family_names(families@[i])
                    && is_down_motif(rated@[i], list@),
        decreases families.len() - k,
    {
        let family: VerticalInterfaceFamily = families[k];
        let calibrated: bool = known_vertical_placement_candidates(
            family.top_spec_name,
            family.bottom_spec_name,
        ).len() > 0;
        rated.push(
            VerticalMotifFamily {
                top_spec: family.top_spec_name.to_owned(),
                bottom_spec: family.bottom_spec_name.to_owned(),
                count: family.count,
                calibrated,
            },
        );
        assert(down_names(rated@[k as int]) =~= routing::vertical_family_names(families@[k as int]));
        k += 1;
    }
    proof {
        assert forall|i: int, j: int| #![trigger rated@[i], rated@[j]] 0 <= i < j < rated@.len() implies tally::names_less(
            down_names(rated@[i]),
            down_names(rated@[j]),
        ) by {
            assert(tally::names_less(
                routing::vertical_family_names(families@[i]),
                routing::vertical_family_names(families@[j]),
            ));
        }
        assert forall|key: Names| #[trigger] list@.contains(key) implies exists|i: int|
            0 <= i < rated@.len() && down_names(#[trigger] rated@[i]) == key by {
            let i = choose|i: int|
                0 <= i < families@.len() && routing::vertical_family_names(#[trigger] families@[i]) == key;
            assert(down_names(rated@[i]) == key);
        }
    }
    rated
}

/// The motifs of a layout.
fn audit_layout_motifs(
    stock: &PublishedLibrary,
    files: Ghost<&PatternFiles>,
    laid: &BoardLayout,
    c: Ghost<ConstructionModel>,
    model: Ghost<LayoutModel>,
) -> (result: Result<BoardMotifAuditReport, BoardError>)
    requires
        stock.wf(files@),
        layout::is_layout(*laid, c@, model@),
    ensures
        is_motif_result(files@, c@, model@, result),
{
    let across: Vec<HorizontalInterface> = match list_across(stock, files, &laid.pieces, &laid.wide) {
        Ok(list) => list,
        Err(error) => {
            return Err(error);
        },
    };
    let down: Vec<VerticalInterface> = list_down(&laid.pieces, &laid.high);
    let ghost wide = layout::seam_order(c@, model@, RouteDir::E);
    let ghost wide_names = motifs_across(files@, model@.pieces, wide, wide.len())->Ok_0;
    let ghost high_names = motifs_down(model@.pieces, layout::seam_order(c@, model@, RouteDir::S));
    let horizontal: Vec<HorizontalMotifFamily> = rate_across(
        &count_horizontal_families(&across, Ghost(wide_names)),
        Ghost(wide_names),
    );
    let vertical: Vec<VerticalMotifFamily> = rate_down(
        &count_vertical_families(&down, Ghost(high_names)),
        Ghost(high_names),
    );
    Ok(BoardMotifAuditReport { horizontal, vertical })
}

/// The motifs of the board of a construction.
pub fn audit_published_board_motifs(files: &PatternFiles, construction: &CompiledConstruction) -> (result: Result<
    BoardMotifAuditReport,
    BoardError,
>)
    requires
        files.wf(),
        construction.variable_inputs.wf(),
        lanes::board_fits(construction@),
        routing::sources_known(construction@),
    ensures
        is_audit_result(files, construction@, result),
{
    let stock: PublishedLibrary = match PublishedLibrary::load(files) {
        Ok(stock) => stock,
        Err(error) => {
            return Err(error);
        },
    };
    let laid: BoardLayout = match prepare_layout(construction) {
        Ok(laid) => laid,
        Err(error) => {
            return Err(error);
        },
    };
    let ghost model = layout::layout_of(construction@)->Ok_0;
    audit_layout_motifs(&stock, Ghost(files), &laid, Ghost(construction@), Ghost(model))
}

/// Those of the first `k` motifs whose distance is not known.
pub open spec fn unresolved_across(families: Seq<HorizontalMotifFamily>, k: nat) -> Seq<HorizontalMotifFamily>
    decreases k,
{
    if k == 0 {
        Seq::empty()
    } else if families[k - 1].calibrated {
        unresolved_across(families, (k - 1) as nat)
    } else {
        unresolved_across(families, (k - 1) as nat).push(families[k - 1])
    }
}

/// Those of the first `k` motifs whose distance is not known.
pub open spec fn unresolved_down(families: Seq<VerticalMotifFamily>, k: nat) -> Seq<VerticalMotifFamily>
    decreases k,
{
    if k == 0 {
        Seq::empty()
    } else if families[k - 1].calibrated {
        unresolved_down(families, (k - 1) as nat)
    } else {
        unresolved_down(families, (k - 1) as nat).push(families[k - 1])
    }
}

/// The mark of a motif in a summary.
pub open spec fn mark(calibrated: bool) -> Seq<char> {
    if calibrated {
        "ok"@
    } else {
        "todo"@
    }
}

fn mark_text(calibrated: bool) -> (text: &'static str)
    ensures
        text@ == mark(calibrated),
{
    if calibrated {
        "ok"
    } else {
        "todo"
    }
}

/// The first line about motifs in a summary.
pub open spec fn head_line(which: Seq<char>, total: nat, unresolved: nat) -> Seq<char> {
    which + " motif families: "@ + text::decimal(total) + " ("@ + text::decimal(unresolved) + " unresolved)"@
}

/// The line about a motif in a summary.
pub open spec fn across_line(family: HorizontalMotifFamily) -> Seq<char> {
    "  ["@ + mark(family.calibrated) + "] "@ + family.left_spec@ + " --"@ + family.connector_name@ + "--> "@
        + family.right_spec@ + " x"@ + text::decimal(family.count as nat)
}

/// The line about a motif in a summary.
pub open spec fn down_line(family: VerticalMotifFamily) -> Seq<char> {
    "  ["@ + mark(family.calibrated) + "] "@ + family.top_spec@ + " / "@ + family.bottom_spec@ + " x"@ + text::decimal(
        family.count as nat,
    )
}

/// Adds the first line about motifs.
fn push_head(out: &mut String, which: &str, total: usize, unresolved: usize)
    ensures
        final(out)@ == old(out)@ + head_line(which@, total as nat, unresolved as nat),
{
    let ghost before = out@;
    out.append(which);
    out.append(" motif families: ");
    push_usize(out, total);
    out.append(" (");
    push_usize(out, unresolved);
    out.append(" unresolved)");
    assert(out@ =~= before + head_line(which@, total as nat, unresolved as nat));
}

impl BoardMotifAuditReport {
    /// The motifs from west to east whose distance is not known.
    pub fn unresolved_horizontal(&self) -> (list: Vec<&HorizontalMotifFamily>)
        ensures
            list@.map_values(|family: &HorizontalMotifFamily| *family) == unresolved_across(
                self.horizontal@,
                self.horizontal@.len(),
            ),
    {
        let mut list: Vec<&HorizontalMotifFamily> = Vec::new();
        let mut k: usize = 0;
        let ghost plain = |family: &HorizontalMotifFamily| *family;
        assert(list@.map_values(plain) =~= Seq::<HorizontalMotifFamily>::empty());
        while k < self.horizontal.len()
            invariant
                k <= self.horizontal@.len(),
                plain == (|family: &HorizontalMotifFamily| *family),
                list@.map_values(plain) == unresolved_across(self.horizontal@, k as nat),
            decreases self.horizontal.len() - k,
        {
            if !self.horizontal[k].calibrated {
                let ghost before = list@;
                list.push(&self.horizontal[k]);
                assert(list@.map_values(plain) =~= before.map_values(plain).push(self.horizontal@[k as int]));
            }
            k += 1;
        }
        list
    }

    /// The motifs from north to south whose distance is not known.
    pub fn unresolved_vertical(&self) -> (list: Vec<&VerticalMotifFamily>)
        ensures
            list@.map_values(|family: &VerticalMotifFamily| *family) == unresolved_down(
                self.vertical@,
                self.vertical@.len(),
            ),
    {
        let mut list: Vec<&VerticalMotifFamily> = Vec::new();
        let mut k: usize = 0;
        let ghost plain = |family: &VerticalMotifFamily| *family;
        assert(list@.map_values(plain) =~= Seq::<VerticalMotifFamily>::empty());
        while k < self.vertical.len()
            invariant
                k <= self.vertical@.len(),
                plain == (|family: &VerticalMotifFamily| *family),
                list@.map_values(plain) == unresolved_down(self.vertical@, k as nat),
            decreases self.vertical.len() - k,
        {
            if !self.vertical[k].calibrated {
                let ghost before = list@;
                list.push(&self.vertical[k]);
                assert(list@.map_values(plain) =~= before.map_values(plain).push(self.vertical@[k as int]));
            }
            k += 1;
        }
        list
    }

    /// The lines of the summary.
    pub open spec fn summary_lines(&self) -> Seq<Seq<char>> {
        seq![
            head_line(
                "horizontal"@,
                self.horizontal@.len(),
                unresolved_across(self.horizontal@, self.horizontal@.len()).len(),
            ),
        ] + Seq::new(self.horizontal@.len(), |i: int| across_line(self.horizontal@[i])) + seq![
            head_line(
                "vertical"@,
                self.vertical@.len(),
                unresolved_down(self.vertical@, self.vertical@.len()).len(),
            ),
        ] + Seq::new(self.vertical@.len(), |i: int| down_line(self.vertical@[i]))
    }

    /// The motifs, one in a line.
    pub fn render_summary(&self) -> (summary: String)
        ensures
            summary@ == text::joined(self.summary_lines(), "\n"@),
    {
        let ghost lines = self.summary_lines();
        let mut out: String = String::new();
        let h: usize = self.horizontal.len();
        let v: usize = self.vertical.len();
        let open_across: usize = self.unresolved_horizontal().len();
        let open_down: usize = self.unresolved_vertical().len();
        push_head(&mut out, "horizontal", h, open_across);
        proof {
            text::lemma_joined_step(lines, "\n"@, 0);
            assert(out@ =~= lines[0]);
        }
        let mut k: usize = 0;
        while k < h
            invariant
                k <= h,
                h == self.horizontal@.len(),
                lines == self.summary_lines(),
                out@ == text::joined(lines.take(k + 1), "\n"@),
            decreases h - k,
        {
            let family: &HorizontalMotifFamily = &self.horizontal[k];
            proof {
                text::lemma_joined_step(lines, "\n"@, k + 1);
            }
            out.append("\n");
            let ghost start = out@;
            out.append("  [");
            out.append(mark_text(family.calibrated));
            out.append("] ");
            out.append(family.left_spec.as_str());
            out.append(" --");
            out.append(family.connector_name.as_str());
            out.append("--> ");
            out.append(family.right_spec.as_str());
            out.append(" x");
            push_usize(&mut out, family.count);
            assert(out@ =~= start + lines[k + 1]);
            k += 1;
        }
        proof {
            text::lemma_joined_step(lines, "\n"@, h + 1);
        }
        out.append("\n");
        push_head(&mut out, "vertical", v, open_down);
        let mut m: usize = 0;
        while m < v
            invariant
                m <= v,
                h == self.horizontal@.len(),
                v == self.vertical@.len(),
                lines == self.summary_lines(),
                out@ == text::joined(lines.take(h + m + 2), "\n"@),
            decreases v - m,
        {
            let family: &VerticalMotifFamily = &self.vertical[m];
            proof {
                text::lemma_joined_step(lines, "\n"@, h + m + 2);
            }
            out.append("\n");
            let ghost start = out@;
            out.append("  [");
            out.append(mark_text(family.calibrated));
            out.append("] ");
            out.append(family.top_spec.as_str());
            out.append(" / ");
            out.append(family.bottom_spec.as_str());
            out.append(" x");
            push_usize(&mut out, family.count);
            assert(out@ =~= start + lines[h + m + 2]);
            m += 1;
        }
        assert(lines.take(h + v + 2) =~= lines);
        out
    }
}

} // verus!
