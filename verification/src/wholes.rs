//! Gadgets composed of patterns: the parts, put on one target, with the ports that are not
//! joined.

use crate::composites;
use crate::composites::{rename_port, LoadedPiece, SharedModel, SharedPort};
use crate::encoding;
use crate::encoding::{Cell, CellCoord};
use crate::gadget_verifier::{CellLiteral, GadgetPattern, Port};
use crate::grid;
use crate::grid::Grid;
use crate::interface_error::{InterfaceError, InterfaceFailure};
use crate::lanes;
use crate::library;
use crate::library::{published_spec_named, PublishedSpec};
use crate::published;
use crate::published::{compose_published_patterns, load_published_gadget, PatternFailure, PatternFiles, Placement, PublishedPattern, WireAnchors, is_composable};
use crate::stock;
use crate::text::same_text;
use vstd::prelude::*;

verus! {

/// Where the pieces of a whole stand, by their roles.
#[derive(Debug, Clone, PartialEq, Eq)]
pub struct InterfacePlacement {
    pub piece_origins: Vec<(String, isize, isize)>,
}

/// The first of the first `k` roles that occurs before.
pub open spec fn first_duplicate(list: Seq<(String, isize, isize)>, k: nat) -> Option<Seq<char>>
    decreases k,
{
    if k == 0 {
        None
    } else {
        match first_duplicate(list, (k - 1) as nat) {
            Some(role) => Some(role),
            None => if exists|j: int| 0 <= j < k - 1 && (#[trigger] list[j]).0@ == list[k - 1].0@ {
                Some(list[k - 1].0@)
            } else {
                None
            },
        }
    }
}

/// Where the first of the first `k` pieces with a role stands.
pub open spec fn origin_among(list: Seq<(String, isize, isize)>, role: Seq<char>, k: nat) -> Option<(isize, isize)>
    decreases k,
{
    if k == 0 {
        None
    } else {
        match origin_among(list, role, (k - 1) as nat) {
            Some(origin) => Some(origin),
            None => if list[k - 1].0@ == role {
                Some((list[k - 1].1, list[k - 1].2))
            } else {
                None
            },
        }
    }
}

/// Where the first `k` pieces stand, or the role of the first that is not placed.
pub open spec fn origins_for(
    list: Seq<(String, isize, isize)>,
    pieces: Seq<&LoadedPiece>,
    k: nat,
) -> Result<Seq<(isize, isize)>, InterfaceFailure>
    decreases k,
{
    if k == 0 {
        Ok(Seq::empty())
    } else {
        match origins_for(list, pieces, (k - 1) as nat) {
            Err(failure) => Err(failure),
            Ok(earlier) => match origin_among(list, pieces[k - 1].role@, list.len()) {
                None => Err(InterfaceFailure::MissingPlacement(pieces[k - 1].role@)),
                Some(origin) => Ok(earlier.push(origin)),
            },
        }
    }
}

/// The patterns at their places.
pub open spec fn placements_of(pieces: Seq<&LoadedPiece>, origins: Seq<(isize, isize)>) -> Seq<Placement<'_>> {
    Seq::new(pieces.len(), |i: int| (&pieces[i].pattern, origins[i].0, origins[i].1))
}

/// The upper left corner of all pieces.
pub open spec fn corner(origins: Seq<(isize, isize)>) -> Cell {
    (
        lanes::least(Seq::new(origins.len(), |i: int| origins[i].0 as int)),
        lanes::least(Seq::new(origins.len(), |i: int| origins[i].1 as int)),
    )
}

/// How far a piece is moved.
pub open spec fn shift(origins: Seq<(isize, isize)>, i: int) -> Cell {
    (origins[i].0 - corner(origins).0, origins[i].1 - corner(origins).1)
}

/// The literal, moved.
pub open spec fn is_moved_literal(literal: CellLiteral, from: CellLiteral, by: Cell) -> bool {
    &&& literal.coord@ == (from.coord@.0 + by.0, from.coord@.1 + by.1)
    &&& literal.alive == from.alive
}

/// The literals, moved.
pub open spec fn are_moved_literals(literals: Seq<CellLiteral>, from: Seq<CellLiteral>, by: Cell) -> bool {
    &&& literals.len() == from.len()
    &&& forall|i: int| 0 <= i < from.len() ==> is_moved_literal(#[trigger] literals[i], from[i], by)
}

/// The port under its name in the whole, moved.
pub open spec fn is_moved_port(port: Port, from: Port, role: Seq<char>, by: Cell) -> bool {
    &&& port.wf()
    &&& port.name@ == composites::renamed(role, from.name@)
    &&& port.states@.dom() == from.states@.dom()
    &&& forall|state: Seq<char>| #[trigger]
        from.states@.contains_key(state) ==> are_moved_literals(port.states@[state]@, from.states@[state]@, by)
}

/// The ports, among the first `k` of a piece, that are not joined.
pub open spec fn open_ports(piece: &LoadedPiece, shared: Seq<SharedModel>, i: int, k: nat) -> Seq<(int, int)>
    decreases k,
{
    if k == 0 {
        Seq::empty()
    } else if composites::is_shared(shared, piece.role@, piece.gadget.ports@[k - 1].name@) {
        open_ports(piece, shared, i, (k - 1) as nat)
    } else {
        open_ports(piece, shared, i, (k - 1) as nat).push((i, k - 1))
    }
}

/// The ports of the first `k` pieces that are not joined, by their numbers.
pub open spec fn all_open_ports(pieces: Seq<&LoadedPiece>, shared: Seq<SharedModel>, k: nat) -> Seq<(int, int)>
    decreases k,
{
    if k == 0 {
        Seq::empty()
    } else {
        all_open_ports(pieces, shared, (k - 1) as nat) + open_ports(
            pieces[k - 1],
            shared,
            k - 1,
            pieces[k - 1].gadget.ports@.len(),
        )
    }
}

/// The ports of the whole.
pub open spec fn are_whole_ports(
    ports: Seq<Port>,
    pieces: Seq<&LoadedPiece>,
    origins: Seq<(isize, isize)>,
    kept: Seq<(int, int)>,
) -> bool {
    &&& ports.len() == kept.len()
    &&& forall|n: int|
        0 <= n < kept.len() ==> is_moved_port(
            #[trigger] ports[n],
            pieces[kept[n].0].gadget.ports@[kept[n].1],
            pieces[kept[n].0].role@,
            shift(origins, kept[n].0),
        )
}

/// The literal is a fixed cell of one of the first `k` pieces, moved.
pub open spec fn comes_from(
    literal: CellLiteral,
    pieces: Seq<&LoadedPiece>,
    origins: Seq<(isize, isize)>,
    k: nat,
) -> bool {
    exists|i: int, j: int|
        0 <= i < k && 0 <= j < pieces[i].gadget.base_predecessor_literals@.len() && is_moved_literal(
            literal,
            #[trigger] pieces[i].gadget.base_predecessor_literals@[j],
            shift(origins, i),
        )
}

/// The fixed cells of the first `k` pieces, each once, by columns and then by rows.
pub open spec fn are_whole_literals(
    literals: Seq<CellLiteral>,
    pieces: Seq<&LoadedPiece>,
    origins: Seq<(isize, isize)>,
    k: nat,
) -> bool {
    &&& literals.no_duplicates()
    &&& forall|i: int, j: int| #![trigger literals[i], literals[j]]
        0 <= i < j < literals.len() ==> !published::cell_less(literals[j].coord@, literals[i].coord@)
    &&& forall|literal: CellLiteral| #[trigger]
        literals.contains(literal) <==> comes_from(literal, pieces, origins, k)
}

/// The whole of the pieces at their places.
pub open spec fn is_whole(
    gadget: GadgetPattern,
    name: Seq<char>,
    pieces: Seq<&LoadedPiece>,
    origins: Seq<(isize, isize)>,
    shared: Seq<SharedModel>,
) -> bool {
    &&& gadget.wf()
    &&& gadget.name@ == name
    &&& exists|pattern: PublishedPattern| #[trigger]
        published::is_composition(&pattern, placements_of(pieces, origins)) && gadget.target@ == published::alive_rows(
            pattern@,
        ) && gadget.target.width == pattern.width && gadget.target.height == pattern.height
    &&& are_whole_ports(gadget.ports@, pieces, origins, all_open_ports(pieces, shared, pieces.len()))
    &&& are_whole_literals(gadget.base_predecessor_literals@, pieces, origins, pieces.len())
}

/// The pieces are too large, or lie too far apart, to be tested together.
pub open spec fn is_too_large(pieces: Seq<&LoadedPiece>, origins: Seq<(isize, isize)>) -> bool {
    ||| !published::composable(placements_of(pieces, origins))
    ||| exists|pattern: PublishedPattern| #[trigger]
        published::is_composition(&pattern, placements_of(pieces, origins)) && encoding::place_count(
            pattern.width as int,
            pattern.height as int,
        ) >= i32::MAX
}

/// A result is the failure.
pub open spec fn whole_fails(result: Result<GadgetPattern, InterfaceError>, failure: InterfaceFailure) -> bool {
    result matches Err(error) && error@ == failure
}

/// The result of composing pieces.
pub open spec fn is_whole_result(
    result: Result<GadgetPattern, InterfaceError>,
    name: Seq<char>,
    pieces: Seq<&LoadedPiece>,
    placement: InterfacePlacement,
    shared: Seq<SharedModel>,
) -> bool {
    let list = placement.piece_origins@;
    match first_duplicate(list, list.len()) {
        Some(role) => whole_fails(result, InterfaceFailure::DuplicatePlacement(role)),
        None => match origins_for(list, pieces, pieces.len()) {
            Err(failure) => whole_fails(result, failure),
            Ok(origins) => if pieces.len() == 0 {
                whole_fails(result, InterfaceFailure::Pattern(PatternFailure::EmptyComposition))
            } else if is_too_large(pieces, origins) {
                whole_fails(result, InterfaceFailure::TooLarge)
            } else {
                result matches Ok(gadget) && gadget.encodable() && is_whole(gadget, name, pieces, origins, shared)
            },
        },
    }
}

/// What is wrong with the pattern of a name, if anything.
pub open spec fn piece_failure(files: &PatternFiles, name: Seq<char>) -> Option<InterfaceFailure> {
    match library::spec_named(name) {
        None => Some(InterfaceFailure::UnknownSpec(name)),
        Some(spec) => match published::pattern_in_files(files, spec.path) {
            Err(failure) => Some(InterfaceFailure::Pattern(failure)),
            Ok(rows) => match grid::grid_of(published::alive_rows(rows)) {
                Err(reason) => Some(InterfaceFailure::Pattern(PatternFailure::NotAGrid(reason))),
                Ok(_) => None,
            },
        },
    }
}

/// The piece is the pattern of a name, in a role.
pub open spec fn is_loaded(piece: LoadedPiece, files: &PatternFiles, role: Seq<char>, name: Seq<char>) -> bool {
    &&& piece.wf()
    &&& piece.role@ == role
    &&& library::spec_named(name) == Some(piece.spec@)
    &&& stock::rows_named(files, name) == Some(piece.pattern@)
}

/// The end of a wire.
pub open spec fn end_at(ends: WireAnchors, port: Seq<char>) -> Option<CellCoord> {
    if port == "E"@ {
        ends.east
    } else if port == "N"@ {
        ends.north
    } else if port == "W"@ {
        ends.west
    } else if port == "S"@ {
        ends.south
    } else {
        None
    }
}

impl LoadedPiece {
    /// Reads the pattern of a name.
    pub fn load(files: &PatternFiles, role: &'static str, spec_name: &str) -> (result: Result<
        Self,
        InterfaceError,
    >)
        requires
            files.wf(),
        ensures
            match piece_failure(files, spec_name@) {
                Some(failure) => result matches Err(error) && error@ == failure,
                None => result matches Ok(piece) && is_loaded(piece, files, role@, spec_name@),
            },
    {
        let spec: PublishedSpec = match published_spec_named(spec_name) {
            Some(spec) => spec,
            None => {
                return Err(InterfaceError::UnknownSpec { name: spec_name.to_owned() });
            },
        };
        proof {
            library::lemma_spec_named(spec_name@);
        }
        match load_published_gadget(files, &spec) {
            Ok(loaded) => {
                let (pattern, gadget): (PublishedPattern, GadgetPattern) = loaded;
                proof {
                    let rows = pattern@;
                    assert(grid::grid_of(published::alive_rows(rows)) is Ok);
                    assert(published::alive_rows(rows).len() == rows.len());
                    assert(pattern.width == rows[0].len());
                }
                Ok(LoadedPiece { role, spec, pattern, gadget })
            },
            Err(error) => Err(InterfaceError::Pattern { error }),
        }
    }

    /// Where the wire at an edge ends.
    pub fn anchor(&self, port_name: &str) -> (result: Result<CellCoord, InterfaceError>)
        requires
            self.wf(),
        ensures
            match end_at(published::anchors_of(&self.pattern), port_name@) {
                Some(end) => result == Ok::<CellCoord, InterfaceError>(end),
                None => result matches Err(error) && error@ == InterfaceFailure::MissingAnchor(
                    self.spec@.name,
                    port_name@,
                ),
            },
    {
        let anchors: WireAnchors = self.pattern.find_wires();
        let found: Option<CellCoord> = if same_text(port_name, "E") {
            anchors.east
        } else if same_text(port_name, "N") {
            anchors.north
        } else if same_text(port_name, "W") {
            anchors.west
        } else if same_text(port_name, "S") {
            anchors.south
        } else {
            None
        };
        match found {
            Some(end) => Ok(end),
            None => Err(InterfaceError::MissingAnchor { name: self.spec.name, port: port_name.to_owned() }),
        }
    }
}

/// The boxes of placed patterns are the same.
proof fn lemma_box_unique(placements: Seq<Placement>, a: (int, int, int, int), b: (int, int, int, int))
    requires
        published::is_box(placements, a.0, a.1, a.2, a.3),
        published::is_box(placements, b.0, b.1, b.2, b.3),
    ensures
        a == b,
{
    let k = choose|k: int| 0 <= k < placements.len() && (#[trigger] placements[k]).1 == a.0;
    let k = choose|k: int| 0 <= k < placements.len() && (#[trigger] placements[k]).1 == b.0;
    let k = choose|k: int| 0 <= k < placements.len() && (#[trigger] placements[k]).2 == a.1;
    let k = choose|k: int| 0 <= k < placements.len() && (#[trigger] placements[k]).2 == b.1;
}

/// The sizes of compositions are the same.
proof fn lemma_composition_size(placements: Seq<Placement>, a: &PublishedPattern, b: &PublishedPattern)
    requires
        published::is_composition(a, placements),
        published::is_composition(b, placements),
    ensures
        a.width == b.width,
        a.height == b.height,
{
    let (l, t, r, d) = choose|left: int, top: int, right: int, bottom: int| #[trigger]
        published::is_box(placements, left, top, right, bottom) && a.width == right - left && a.height == bottom - top
            && forall|y: int, x: int|
            0 <= y < a.height && 0 <= x < a.width ==> published::is_largest_value(
                #[trigger] a@[y][x],
                placements,
                top + y,
                left + x,
            );
    let (l2, t2, r2, d2) = choose|left: int, top: int, right: int, bottom: int| #[trigger]
        published::is_box(placements, left, top, right, bottom) && b.width == right - left && b.height == bottom - top
            && forall|y: int, x: int|
            0 <= y < b.height && 0 <= x < b.width ==> published::is_largest_value(
                #[trigger] b@[y][x],
                placements,
                top + y,
                left + x,
            );
    lemma_box_unique(placements, (l, t, r, d), (l2, t2, r2, d2));
}

/// The whole is at least as large as its first piece.
proof fn lemma_composition_covers(placements: Seq<Placement>, pattern: &PublishedPattern)
    requires
        placements.len() > 0,
        published::is_composition(pattern, placements),
    ensures
        forall|i: int, j: int| #![trigger placements[i], placements[j]]
            0 <= i < placements.len() && 0 <= j < placements.len() ==> {
                &&& placements[i].1 + placements[i].0.width - placements[j].1 <= pattern.width
                &&& placements[i].2 + placements[i].0.height - placements[j].2 <= pattern.height
            },
{
    let (l, t, r, d) = choose|left: int, top: int, right: int, bottom: int| #[trigger]
        published::is_box(placements, left, top, right, bottom) && pattern.width == right - left && pattern.height
            == bottom - top && forall|y: int, x: int|
            0 <= y < pattern.height && 0 <= x < pattern.width ==> published::is_largest_value(
                #[trigger] pattern@[y][x],
                placements,
                top + y,
                left + x,
            );
    assert(l <= placements[0].1);
}

/// The first role that occurs twice.
fn find_duplicate(placement: &InterfacePlacement) -> (found: Option<usize>)
    ensures
        match found {
            Some(i) => i < placement.piece_origins@.len() && first_duplicate(
                placement.piece_origins@,
                placement.piece_origins@.len(),
            ) == Some(placement.piece_origins@[i as int].0@),
            None => first_duplicate(placement.piece_origins@, placement.piece_origins@.len()) is None,
        },
{
    let ghost list = placement.piece_origins@;
    let mut k: usize = 0;
    while k < placement.piece_origins.len()
        invariant
            k <= list.len(),
            list == placement.piece_origins@,
            first_duplicate(list, k as nat) is None,
        decreases list.len() - k,
    {
        let mut j: usize = 0;
        while j < k
            invariant
                j <= k,
                k < list.len(),
                list == placement.piece_origins@,
                first_duplicate(list, k as nat) is None,
                forall|i: int| 0 <= i < j ==> (#[trigger] list[i]).0@ != list[k as int].0@,
            decreases k - j,
        {
            if same_text(placement.piece_origins[j].0.as_str(), placement.piece_origins[k].0.as_str()) {
                proof {
                    assert(list[j as int].0@ == list[k as int].0@);
                    lemma_duplicate_first(list, (k + 1) as nat, list.len());
                }
                return Some(k);
            }
            j += 1;
        }
        k += 1;
    }
    None
}

proof fn lemma_duplicate_first(list: Seq<(String, isize, isize)>, j: nat, k: nat)
    requires
        j <= k,
        first_duplicate(list, j) is Some,
    ensures
        first_duplicate(list, k) == first_duplicate(list, j),
    decreases k,
{
    if j < k {
        lemma_duplicate_first(list, j, (k - 1) as nat);
    }
}

proof fn lemma_origin_first(list: Seq<(String, isize, isize)>, role: Seq<char>, j: nat, k: nat)
    requires
        j <= k,
        origin_among(list, role, j) is Some,
    ensures
        origin_among(list, role, k) == origin_among(list, role, j),
    decreases k,
{
    if j < k {
        lemma_origin_first(list, role, j, (k - 1) as nat);
    }
}

/// Where the piece with a role stands.
fn find_origin(placement: &InterfacePlacement, role: &str) -> (found: Option<(isize, isize)>)
    ensures
        found == origin_among(placement.piece_origins@, role@, placement.piece_origins@.len()),
{
    let ghost list = placement.piece_origins@;
    let mut k: usize = 0;
    while k < placement.piece_origins.len()
        invariant
            k <= list.len(),
            list == placement.piece_origins@,
            origin_among(list, role@, k as nat) is None,
        decreases list.len() - k,
    {
        if same_text(placement.piece_origins[k].0.as_str(), role) {
            proof {
                lemma_origin_first(list, role@, (k + 1) as nat, list.len());
            }
            return Some((placement.piece_origins[k].1, placement.piece_origins[k].2));
        }
        k += 1;
    }
    None
}

proof fn lemma_origins_fail(list: Seq<(String, isize, isize)>, pieces: Seq<&LoadedPiece>, j: nat, k: nat)
    requires
        j <= k,
        origins_for(list, pieces, j) is Err,
    ensures
        origins_for(list, pieces, k) == origins_for(list, pieces, j),
    decreases k,
{
    if j < k {
        lemma_origins_fail(list, pieces, j, (k - 1) as nat);
    }
}

/// Where the pieces stand.
fn placement_origins(placement: &InterfacePlacement, pieces: &Vec<&LoadedPiece>) -> (result: Result<
    Vec<(isize, isize)>,
    InterfaceError,
>)
    ensures
        match origins_for(placement.piece_origins@, pieces@, pieces@.len()) {
            Ok(origins) => result matches Ok(found) && found@ == origins && origins.len() == pieces@.len(),
            Err(failure) => result matches Err(error) && error@ == failure,
        },
{
    let ghost list = placement.piece_origins@;
    let mut origins: Vec<(isize, isize)> = Vec::new();
    let mut k: usize = 0;
    while k < pieces.len()
        invariant
            k <= pieces@.len(),
            list == placement.piece_origins@,
            origins@.len() == k,
            origins_for(list, pieces@, k as nat) == Ok::<Seq<(isize, isize)>, InterfaceFailure>(origins@),
        decreases pieces.len() - k,
    {
        match find_origin(placement, pieces[k].role) {
            Some(origin) => {
                origins.push(origin);
            },
            None => {
                proof {
                    lemma_origins_fail(list, pieces@, (k + 1) as nat, pieces@.len());
                }
                return Err(InterfaceError::MissingPlacement { role: pieces[k].role });
            },
        }
        k += 1;
    }
    Ok(origins)
}

/// The literals lie near a pattern.
spec fn near(literals: Seq<CellLiteral>) -> bool {
    forall|i: int|
        0 <= i < literals.len() ==> -16 <= (#[trigger] literals[i]).coord.x <= 0x3000_0010 && -16 <= literals[i].coord.y
            <= 0x3000_0010
}

/// The cells that the gadget of a small pattern fixes lie near the pattern.
proof fn lemma_gadget_near(piece: &LoadedPiece)
    requires
        piece.wf(),
        piece.pattern.width <= 0x2fff_ffff,
        piece.pattern.height <= 0x2fff_ffff,
        published::are_anchors(
            piece.pattern@,
            piece.pattern.width as int,
            piece.pattern.height as int,
            published::anchors_of(&piece.pattern),
        ),
    ensures
        near(piece.gadget.base_predecessor_literals@),
        forall|k: int, state: Seq<char>| #![trigger piece.gadget.ports@[k].states@.contains_key(state)]
            0 <= k < piece.gadget.ports@.len() && piece.gadget.ports@[k].states@.contains_key(state) ==> near(
                piece.gadget.ports@[k].states@[state]@,
            ),
{
    let pattern = &piece.pattern;
    let anchors = published::anchors_of(pattern);
    let w = pattern.width as int;
    let h = pattern.height as int;
    let base = piece.gadget.base_predecessor_literals@;
    assert forall|i: int| 0 <= i < base.len() implies -16 <= (#[trigger] base[i]).coord.x <= 0x3000_0010 && -16
        <= base[i].coord.y <= 0x3000_0010 by {
        assert(published::at_border(base[i].coord@, w, h));
    }
    lemma_ends_inside(pattern);
    let wires = published::wires_of(anchors);
    assert forall|k: int, state: Seq<char>| #![trigger piece.gadget.ports@[k].states@.contains_key(state)]
        0 <= k < piece.gadget.ports@.len() && piece.gadget.ports@[k].states@.contains_key(state) implies near(
        piece.gadget.ports@[k].states@[state]@,
    ) by {
        let port = piece.gadget.ports@[k];
        assert(published::is_port_of(port, wires[k]));
        let cell = wires[k].1;
        assert(-4 <= cell.0 <= w + 4 && -4 <= cell.1 <= h + 4);
        assert(state == "0"@ || state == "1"@);
        let literals = port.states@[state]@;
        let models = published::literal_models(literals);
        let value = if state == "0"@ { 0int } else { 1int };
        let wanted = if wires[k].2 { published::column_literals(cell, value) } else { published::row_literals(cell, value) };
        assert(models == wanted);
        assert(literals.len() == 8);
        assert forall|i: int| 0 <= i < literals.len() implies -16 <= (#[trigger] literals[i]).coord.x <= 0x3000_0010 && -16
            <= literals[i].coord.y <= 0x3000_0010 by {
            assert(models[i] == (literals[i].coord@, literals[i].alive));
            assert(models[i] == wanted[i]);
        }
    }
}

/// The ends of the wires lie inside the pattern.
proof fn lemma_ends_inside(pattern: &PublishedPattern)
    requires
        published::are_anchors(
            pattern@,
            pattern.width as int,
            pattern.height as int,
            published::anchors_of(pattern),
        ),
    ensures
        forall|k: int|
            0 <= k < published::wires_of(published::anchors_of(pattern)).len() ==> -4 <= (
            #[trigger] published::wires_of(published::anchors_of(pattern))[k]).1.0 <= pattern.width + 4 && -4
                <= published::wires_of(published::anchors_of(pattern))[k].1.1 <= pattern.height + 4,
{
}

/// The literal, moved.
fn translate_literal(literal: CellLiteral, dx: isize, dy: isize) -> (moved: CellLiteral)
    requires
        -16 <= literal.coord.x <= 0x3000_0010,
        -16 <= literal.coord.y <= 0x3000_0010,
        0 <= dx <= 0x4000_0000,
        0 <= dy <= 0x4000_0000,
    ensures
        is_moved_literal(moved, literal, (dx as int, dy as int)),
{
    CellLiteral { coord: CellCoord::new(literal.coord.x + dx, literal.coord.y + dy), alive: literal.alive }
}

/// The literals, moved.
fn translate_literals(literals: &Vec<CellLiteral>, dx: isize, dy: isize) -> (moved: Vec<CellLiteral>)
    requires
        near(literals@),
        0 <= dx <= 0x4000_0000,
        0 <= dy <= 0x4000_0000,
    ensures
        are_moved_literals(moved@, literals@, (dx as int, dy as int)),
{
    let mut moved: Vec<CellLiteral> = Vec::new();
    let mut i: usize = 0;
    while i < literals.len()
        invariant
            i <= literals@.len(),
            near(literals@),
            0 <= dx <= 0x4000_0000,
            0 <= dy <= 0x4000_0000,
            moved@.len() == i,
            forall|j: int|
                0 <= j < i ==> is_moved_literal(#[trigger] moved@[j], literals@[j], (dx as int, dy as int)),
        decreases literals.len() - i,
    {
        assert(-16 <= literals@[i as int].coord.x);
        moved.push(translate_literal(literals[i], dx, dy));
        i += 1;
    }
    moved
}

/// The port under its name in the whole, moved.
fn translate_port(port: &Port, role: &str, dx: isize, dy: isize) -> (moved: Port)
    requires
        port.wf(),
        forall|state: Seq<char>| #[trigger] port.states@.contains_key(state) ==> near(port.states@[state]@),
        0 <= dx <= 0x4000_0000,
        0 <= dy <= 0x4000_0000,
    ensures
        is_moved_port(moved, *port, role@, (dx as int, dy as int)),
{
    let ghost by = (dx as int, dy as int);
    let ghost keys = port.states.key_seq();
    let name: String = rename_port(role, port.name.as_str());
    let mut moved: Port = Port::new(name.as_str());
    proof {
        port.states.lemma_entries();
    }
    let mut i: usize = 0;
    while i < port.states.len()
        invariant
            i <= keys.len(),
            port.wf(),
            keys == port.states.key_seq(),
            by == (dx as int, dy as int),
            forall|state: Seq<char>| #[trigger] port.states@.contains_key(state) ==> near(port.states@[state]@),
            forall|j: int| #![trigger keys[j]]
                0 <= j < keys.len() ==> port.states@.contains_key(keys[j]) && port.states@[keys[j]]
                    == port.states.value_seq()[j],
            keys.no_duplicates(),
            port.states.value_seq().len() == keys.len(),
            0 <= dx <= 0x4000_0000,
            0 <= dy <= 0x4000_0000,
            moved.wf(),
            moved.name@ == name@,
            forall|state: Seq<char>| #[trigger]
                moved.states@.contains_key(state) <==> keys.take(i as int).contains(state),
            forall|j: int| #![trigger keys[j]]
                0 <= j < i ==> are_moved_literals(moved.states@[keys[j]]@, port.states@[keys[j]]@, by),
        decreases keys.len() - i,
    {
        assert(port.states@.contains_key(keys[i as int]));
        let ghost before = moved.states@;
        let literals: Vec<CellLiteral> = translate_literals(port.states.value_at(i), dx, dy);
        moved = moved.with_state(port.states.key_at(i).as_str(), literals);
        proof {
            assert forall|state: Seq<char>| #[trigger]
                moved.states@.contains_key(state) <==> keys.take(i + 1).contains(state) by {
                crate::seqs::lemma_take_contains(keys, i as int, state);
                assert(before.contains_key(state) <==> keys.take(i as int).contains(state));
            }
            assert forall|j: int| #![trigger keys[j]] 0 <= j < i + 1 implies are_moved_literals(
                moved.states@[keys[j]]@,
                port.states@[keys[j]]@,
                by,
            ) by {
                if j < i {
                    assert(keys[j] != keys[i as int]);
                    assert(are_moved_literals(before[keys[j]]@, port.states@[keys[j]]@, by));
                }
            }
        }
        i += 1;
    }
    proof {
        assert(keys.take(i as int) =~= keys);
        port.states.lemma_entries();
        assert(moved.states@.dom() =~= port.states@.dom()) by {
            assert forall|state: Seq<char>| moved.states@.dom().contains(state) <==> port.states@.dom().contains(
                state,
            ) by {
                assert(moved.states@.contains_key(state) <==> keys.contains(state));
                assert(keys.to_set().contains(state) <==> keys.contains(state));
            }
        }
        assert forall|state: Seq<char>| #[trigger] port.states@.contains_key(state) implies are_moved_literals(
            moved.states@[state]@,
            port.states@[state]@,
            by,
        ) by {
            assert(keys.contains(state));
            let j = choose|j: int| 0 <= j < keys.len() && keys[j] == state;
            assert(are_moved_literals(moved.states@[keys[j]]@, port.states@[keys[j]]@, by));
        }
    }
    moved
}

/// The literals stand in order, each once.
spec fn is_ordered(literals: Seq<CellLiteral>) -> bool {
    &&& literals.no_duplicates()
    &&& forall|i: int, j: int| #![trigger literals[i], literals[j]]
        0 <= i < j < literals.len() ==> !published::cell_less(literals[j].coord@, literals[i].coord@)
}

fn comes_before(a: CellCoord, b: CellCoord) -> (result: bool)
    ensures
        result == published::cell_less(a@, b@),
{
    a.x < b.x || (a.x == b.x && a.y < b.y)
}

/// Adds a literal, unless it is there.
fn insert_literal(literals: &mut Vec<CellLiteral>, literal: CellLiteral)
    requires
        is_ordered(old(literals)@),
    ensures
        is_ordered(final(literals)@),
        forall|other: CellLiteral| #[trigger]
            final(literals)@.contains(other) <==> old(literals)@.contains(other) || other == literal,
{
    let ghost before = literals@;
    let mut at: usize = 0;
    while at < literals.len() && !comes_before(literal.coord, literals[at].coord)
        invariant
            at <= literals@.len(),
            literals@ == before,
            before == old(literals)@,
            is_ordered(before),
            forall|i: int|
                0 <= i < at ==> (#[trigger] before[i]) != literal && !published::cell_less(
                    literal.coord@,
                    before[i].coord@,
                ),
        decreases literals.len() - at,
    {
        if literals[at] == literal {
            assert(before[at as int] == literal);
            return;
        }
        at += 1;
    }
    proof {
        assert forall|i: int| at <= i < before.len() implies published::cell_less(
            literal.coord@,
            (#[trigger] before[i]).coord@,
        ) by {
            if i > at {
                assert(!published::cell_less(before[i].coord@, before[at as int].coord@));
            }
        }
        lemma_insert_ordered(before, literal, at as int);
    }
    literals.insert(at, literal);
}

proof fn lemma_insert_ordered(before: Seq<CellLiteral>, literal: CellLiteral, at: int)
    requires
        is_ordered(before),
        0 <= at <= before.len(),
        forall|i: int|
            0 <= i < at ==> (#[trigger] before[i]) != literal && !published::cell_less(
                literal.coord@,
                before[i].coord@,
            ),
        forall|i: int| at <= i < before.len() ==> published::cell_less(literal.coord@, (#[trigger] before[i]).coord@),
    ensures
        is_ordered(before.insert(at, literal)),
        forall|other: CellLiteral| #[trigger]
            before.insert(at, literal).contains(other) <==> before.contains(other) || other == literal,
{
    let after = before.insert(at, literal);
    assert forall|i: int, j: int| #![trigger after[i], after[j]] 0 <= i < j < after.len() implies !published::cell_less(
        after[j].coord@,
        after[i].coord@,
    ) && after[i] != after[j] by {
        let a = if i < at { before[i] } else { before[i - 1] };
        let b = if j < at { before[j] } else { before[j - 1] };
        if i < at && j < at {
            assert(before[i] != before[j]);
        } else if i < at && j > at {
            assert(before[i] != before[j - 1]);
            assert(!published::cell_less(before[j - 1].coord@, before[i].coord@));
        } else if i > at {
            assert(before[i - 1] != before[j - 1]);
            assert(!published::cell_less(before[j - 1].coord@, before[i - 1].coord@));
        }
    }
    assert forall|other: CellLiteral| #[trigger] after.contains(other) <==> before.contains(other) || other == literal by {
        if before.contains(other) {
            let i = choose|i: int| 0 <= i < before.len() && before[i] == other;
            if i < at {
                assert(after[i] == other);
            } else {
                assert(after[i + 1] == other);
            }
        }
        if other == literal {
            assert(after[at] == other);
        }
        if after.contains(other) && other != literal {
            let i = choose|i: int| 0 <= i < after.len() && after[i] == other;
            if i < at {
                assert(before[i] == other);
            } else {
                assert(before[i - 1] == other);
            }
        }
    }
}

/// The origins lie near each other, and none left of or above the corner.
spec fn is_corner(origins: Seq<(isize, isize)>, low: (isize, isize)) -> bool {
    &&& (low.0 as int, low.1 as int) == corner(origins)
    &&& forall|i: int|
        0 <= i < origins.len() ==> 0 <= (#[trigger] origins[i]).0 - low.0 <= 0x4000_0000 && 0 <= origins[i].1 - low.1
            <= 0x4000_0000
}

/// The upper left corner of all pieces.
fn find_corner(origins: &Vec<(isize, isize)>) -> (low: (isize, isize))
    requires
        origins@.len() > 0,
        forall|i: int, j: int| #![trigger origins@[i], origins@[j]]
            0 <= i < origins@.len() && 0 <= j < origins@.len() ==> {
                &&& origins@[i].0 - origins@[j].0 <= 0x4000_0000
                &&& origins@[i].1 - origins@[j].1 <= 0x4000_0000
            },
    ensures
        is_corner(origins@, low),
{
    let mut low: (isize, isize) = origins[0];
    let ghost mut at: (int, int) = (0, 0);
    let mut k: usize = 1;
    while k < origins.len()
        invariant
            1 <= k <= origins@.len(),
            0 <= at.0 < k,
            0 <= at.1 < k,
            forall|i: int, j: int| #![trigger origins@[i], origins@[j]]
                0 <= i < origins@.len() && 0 <= j < origins@.len() ==> {
                    &&& origins@[i].0 - origins@[j].0 <= 0x4000_0000
                    &&& origins@[i].1 - origins@[j].1 <= 0x4000_0000
                },
            origins@[at.0].0 == low.0,
            origins@[at.1].1 == low.1,
            forall|i: int| 0 <= i < k ==> low.0 <= (#[trigger] origins@[i]).0 && low.1 <= origins@[i].1,
        decreases origins.len() - k,
    {
        let here: (isize, isize) = origins[k];
        if here.0 < low.0 {
            low = (here.0, low.1);
            proof {
                at = (k as int, at.1);
            }
        }
        if here.1 < low.1 {
            low = (low.0, here.1);
            proof {
                at = (at.0, k as int);
            }
        }
        k += 1;
    }
    proof {
        let xs = Seq::new(origins@.len(), |i: int| origins@[i].0 as int);
        let ys = Seq::new(origins@.len(), |i: int| origins@[i].1 as int);
        assert(xs[at.0] == low.0);
        assert(ys[at.1] == low.1);
        crate::board::lemma_least_is(xs, low.0 as int);
        crate::board::lemma_least_is(ys, low.1 as int);
        assert forall|i: int| 0 <= i < origins@.len() implies 0 <= (#[trigger] origins@[i]).0 - low.0 <= 0x4000_0000
            && 0 <= origins@[i].1 - low.1 <= 0x4000_0000 by {
            assert(origins@[i].0 - origins@[at.0].0 <= 0x4000_0000);
            assert(origins@[i].1 - origins@[at.1].1 <= 0x4000_0000);
        }
    }
    low
}

/// The ports and the fixed cells of the first `k` pieces are there.
spec fn holds_pieces(
    gadget: GadgetPattern,
    literals: Seq<CellLiteral>,
    pieces: Seq<&LoadedPiece>,
    origins: Seq<(isize, isize)>,
    shared: Seq<SharedModel>,
    k: nat,
) -> bool {
    &&& gadget.wf()
    &&& are_whole_ports(gadget.ports@, pieces, origins, all_open_ports(pieces, shared, k))
    &&& are_whole_literals(literals, pieces, origins, k)
}

/// Adds the ports of a piece that are not joined.
fn add_ports(
    start: GadgetPattern,
    pieces: &Vec<&LoadedPiece>,
    origins: Ghost<Seq<(isize, isize)>>,
    shared: &Vec<SharedPort>,
    k: usize,
    by: (isize, isize),
) -> (gadget: GadgetPattern)
    requires
        k < pieces@.len(),
        pieces@[k as int].wf(),
        pieces@[k as int].pattern.width <= 0x2fff_ffff,
        pieces@[k as int].pattern.height <= 0x2fff_ffff,
        start.wf(),
        are_whole_ports(
            start.ports@,
            pieces@,
            origins@,
            all_open_ports(pieces@, composites::shared_models(shared@), k as nat),
        ),
        (by.0 as int, by.1 as int) == shift(origins@, k as int),
        0 <= by.0 <= 0x4000_0000,
        0 <= by.1 <= 0x4000_0000,
    ensures
        gadget.wf(),
        gadget.name == start.name,
        gadget.target == start.target,
        are_whole_ports(
            gadget.ports@,
            pieces@,
            origins@,
            all_open_ports(pieces@, composites::shared_models(shared@), (k + 1) as nat),
        ),
{
    let piece: &LoadedPiece = pieces[k];
    let ghost models = composites::shared_models(shared@);
    let ghost earlier = all_open_ports(pieces@, models, k as nat);
    let ends: WireAnchors = piece.pattern.find_wires();
    proof {
        lemma_gadget_near(piece);
    }
    let mut gadget: GadgetPattern = start;
    let mut j: usize = 0;
    assert(earlier + open_ports(piece, models, k as int, 0) =~= earlier);
    while j < piece.gadget.ports.len()
        invariant
            j <= piece.gadget.ports@.len(),
            k < pieces@.len(),
            piece == pieces@[k as int],
            piece.wf(),
            models == composites::shared_models(shared@),
            earlier == all_open_ports(pieces@, models, k as nat),
            forall|n: int, state: Seq<char>| #![trigger piece.gadget.ports@[n].states@.contains_key(state)]
                0 <= n < piece.gadget.ports@.len() && piece.gadget.ports@[n].states@.contains_key(state) ==> near(
                    piece.gadget.ports@[n].states@[state]@,
                ),
            (by.0 as int, by.1 as int) == shift(origins@, k as int),
            0 <= by.0 <= 0x4000_0000,
            0 <= by.1 <= 0x4000_0000,
            gadget.wf(),
            gadget.name == start.name,
            gadget.target == start.target,
            are_whole_ports(
                gadget.ports@,
                pieces@,
                origins@,
                earlier + open_ports(piece, models, k as int, j as nat),
            ),
        decreases piece.gadget.ports.len() - j,
    {
        let port: &Port = &piece.gadget.ports[j];
        assert(piece.gadget.ports@[j as int].wf());
        if !composites::is_shared_port(shared, piece.role, port.name.as_str()) {
            let ghost kept = earlier + open_ports(piece, models, k as int, j as nat);
            let ghost before = gadget.ports@;
            assert forall|state: Seq<char>| #[trigger] port.states@.contains_key(state) implies near(
                port.states@[state]@,
            ) by {
                assert(piece.gadget.ports@[j as int].states@.contains_key(state));
            }
            gadget = gadget.with_port(translate_port(port, piece.role, by.0, by.1));
            proof {
                let more = earlier + open_ports(piece, models, k as int, (j + 1) as nat);
                assert(more =~= kept.push((k as int, j as int)));
                assert forall|n: int| 0 <= n < more.len() implies is_moved_port(
                    #[trigger] gadget.ports@[n],
                    pieces@[more[n].0].gadget.ports@[more[n].1],
                    pieces@[more[n].0].role@,
                    shift(origins@, more[n].0),
                ) by {
                    if n < kept.len() {
                        assert(gadget.ports@[n] == before[n]);
                    }
                }
            }
        }
        j += 1;
    }
    gadget
}

/// Adds the fixed cells of a piece.
fn add_literals(
    literals: &mut Vec<CellLiteral>,
    pieces: &Vec<&LoadedPiece>,
    origins: Ghost<Seq<(isize, isize)>>,
    k: usize,
    by: (isize, isize),
)
    requires
        k < pieces@.len(),
        pieces@[k as int].wf(),
        pieces@[k as int].pattern.width <= 0x2fff_ffff,
        pieces@[k as int].pattern.height <= 0x2fff_ffff,
        are_whole_literals(old(literals)@, pieces@, origins@, k as nat),
        (by.0 as int, by.1 as int) == shift(origins@, k as int),
        0 <= by.0 <= 0x4000_0000,
        0 <= by.1 <= 0x4000_0000,
    ensures
        are_whole_literals(final(literals)@, pieces@, origins@, (k + 1) as nat),
{
    let piece: &LoadedPiece = pieces[k];
    let ghost before = literals@;
    let ghost base = piece.gadget.base_predecessor_literals@;
    let ghost move_by = (by.0 as int, by.1 as int);
    let ends: WireAnchors = piece.pattern.find_wires();
    proof {
        lemma_gadget_near(piece);
    }
    let mut j: usize = 0;
    while j < piece.gadget.base_predecessor_literals.len()
        invariant
            j <= base.len(),
            before == old(literals)@,
            base == piece.gadget.base_predecessor_literals@,
            near(base),
            move_by == (by.0 as int, by.1 as int),
            0 <= by.0 <= 0x4000_0000,
            0 <= by.1 <= 0x4000_0000,
            is_ordered(literals@),
            forall|other: CellLiteral| #[trigger]
                literals@.contains(other) <==> before.contains(other) || exists|i: int|
                    0 <= i < j && is_moved_literal(other, #[trigger] base[i], move_by),
        decreases base.len() - j,
    {
        let ghost earlier = literals@;
        assert(-16 <= base[j as int].coord.x);
        let literal: CellLiteral = translate_literal(piece.gadget.base_predecessor_literals[j], by.0, by.1);
        insert_literal(literals, literal);
        proof {
            assert forall|other: CellLiteral| #[trigger]
                literals@.contains(other) <==> before.contains(other) || exists|i: int|
                    0 <= i < j + 1 && is_moved_literal(other, #[trigger] base[i], move_by) by {
                assert(earlier.contains(other) <==> before.contains(other) || exists|i: int|
                    0 <= i < j && is_moved_literal(other, #[trigger] base[i], move_by));
                if other == literal {
                    assert(is_moved_literal(other, base[j as int], move_by));
                }
                if is_moved_literal(other, base[j as int], move_by) {
                    assert(other == literal);
                }
            }
        }
        j += 1;
    }
    proof {
        assert forall|other: CellLiteral| #[trigger]
            literals@.contains(other) <==> comes_from(other, pieces@, origins@, (k + 1) as nat) by {
            assert(before.contains(other) <==> comes_from(other, pieces@, origins@, k as nat));
            if before.contains(other) {
                let (i, n) = choose|i: int, n: int|
                    0 <= i < k && 0 <= n < pieces@[i].gadget.base_predecessor_literals@.len() && is_moved_literal(
                        other,
                        #[trigger] pieces@[i].gadget.base_predecessor_literals@[n],
                        shift(origins@, i),
                    );
                assert(is_moved_literal(
                    other,
                    pieces@[i].gadget.base_predecessor_literals@[n],
                    shift(origins@, i),
                ));
            }
            if exists|i: int| 0 <= i < base.len() && is_moved_literal(other, #[trigger] base[i], move_by) {
                let i = choose|i: int| 0 <= i < base.len() && is_moved_literal(other, #[trigger] base[i], move_by);
                assert(is_moved_literal(
                    other,
                    pieces@[k as int].gadget.base_predecessor_literals@[i],
                    shift(origins@, k as int),
                ));
            }
            if comes_from(other, pieces@, origins@, (k + 1) as nat) {
                let (i, n) = choose|i: int, n: int|
                    0 <= i < k + 1 && 0 <= n < pieces@[i].gadget.base_predecessor_literals@.len() && is_moved_literal(
                        other,
                        #[trigger] pieces@[i].gadget.base_predecessor_literals@[n],
                        shift(origins@, i),
                    );
                if i == k {
                    assert(is_moved_literal(other, base[n], move_by));
                } else {
                    assert(comes_from(other, pieces@, origins@, k as nat));
                }
            }
        }
    }
}

/// Composes pieces to one gadget.
pub fn build_composite_gadget(
    name: &str,
    pieces: &Vec<&LoadedPiece>,
    placement: &InterfacePlacement,
    shared: &Vec<SharedPort>,
) -> (result: Result<GadgetPattern, InterfaceError>)
    requires
        composites::pieces_wf(pieces@),
    ensures
        is_whole_result(result, name@, pieces@, *placement, composites::shared_models(shared@)),
{
    let ghost models = composites::shared_models(shared@);
    match find_duplicate(placement) {
        Some(i) => {
            return Err(InterfaceError::DuplicatePlacement { role: placement.piece_origins[i].0.as_str().to_owned() });
        },
        None => {},
    }
    let origins: Vec<(isize, isize)> = match placement_origins(placement, pieces) {
        Ok(origins) => origins,
        Err(error) => {
            return Err(error);
        },
    };
    if pieces.len() == 0 {
        return Err(InterfaceError::Pattern { error: crate::published::PatternError::EmptyComposition });
    }
    let ghost all = placements_of(pieces@, origins@);
    let mut raw: Vec<(&PublishedPattern, isize, isize)> = Vec::new();
    let mut k: usize = 0;
    while k < pieces.len()
        invariant
            k <= pieces@.len(),
            origins@.len() == pieces@.len(),
            all == placements_of(pieces@, origins@),
            raw@ == all.take(k as int),
        decreases pieces.len() - k,
    {
        raw.push((&pieces[k].pattern, origins[k].0, origins[k].1));
        assert(raw@ =~= all.take(k + 1));
        k += 1;
    }
    assert(raw@ =~= all);
    assert forall|i: int| 0 <= i < raw@.len() implies (#[trigger] raw@[i]).0.wf() by {
        assert(pieces@[i].wf());
    }
    if !is_composable(raw.as_slice()) {
        return Err(InterfaceError::TooLarge);
    }
    let composed: PublishedPattern = match compose_published_patterns(raw.as_slice()) {
        Ok(composed) => composed,
        Err(error) => {
            return Err(InterfaceError::Pattern { error });
        },
    };
    proof {
        lemma_composition_covers(all, &composed);
        assert(pieces@[0].wf());
        assert(all[0].1 + all[0].0.width - all[0].1 <= composed.width);
    }
    if composed.width > 0x2fff_ffff || composed.height > 0x2fff_ffff {
        assert((composed.width + 2) * (composed.height + 2) >= 0x7fff_ffff) by (nonlinear_arith)
            requires
                composed.width > 0,
                composed.height > 0,
                composed.width > 0x2fff_ffff || composed.height > 0x2fff_ffff,
        ;
        return Err(InterfaceError::TooLarge);
    }
    assert(0 <= (composed.width + 2) * (composed.height + 2) <= 0x7fff_ffff_ffff_ffff) by (nonlinear_arith)
        requires
            composed.width <= 0x2fff_ffff,
            composed.height <= 0x2fff_ffff,
    ;
    let area: i64 = (composed.width as i64 + 2) * (composed.height as i64 + 2);
    if area >= 0x7fff_ffff {
        return Err(InterfaceError::TooLarge);
    }
    assert(!is_too_large(pieces@, origins@)) by {
        assert forall|pattern: PublishedPattern| #[trigger] published::is_composition(&pattern, all) implies !(
        encoding::place_count(pattern.width as int, pattern.height as int) >= i32::MAX) by {
            lemma_composition_size(all, &pattern, &composed);
        }
    }
    finish_gadget(name, pieces, &origins, shared, &composed)
}

/// Gives the composed pattern its ports and its fixed cells.
fn finish_gadget(
    name: &str,
    pieces: &Vec<&LoadedPiece>,
    origins: &Vec<(isize, isize)>,
    shared: &Vec<SharedPort>,
    composed: &PublishedPattern,
) -> (result: Result<GadgetPattern, InterfaceError>)
    requires
        composites::pieces_wf(pieces@),
        pieces@.len() > 0,
        origins@.len() == pieces@.len(),
        published::composable(placements_of(pieces@, origins@)),
        published::is_composition(composed, placements_of(pieces@, origins@)),
        0 < composed.width <= 0x2fff_ffff,
        0 < composed.height <= 0x2fff_ffff,
        encoding::place_count(composed.width as int, composed.height as int) < i32::MAX,
    ensures
        result matches Ok(gadget) && gadget.encodable() && is_whole(
            gadget,
            name@,
            pieces@,
            origins@,
            composites::shared_models(shared@),
        ),
{
    let ghost models = composites::shared_models(shared@);
    let ghost all = placements_of(pieces@, origins@);
    proof {
        let rows = published::alive_rows(composed@);
        assert(composed@.len() == composed.height);
        assert(composed@[0].len() == composed.width);
        assert(rows[0].len() == composed.width);
        assert(grid::rectangular(rows, rows[0].len())) by {
            assert forall|y: int| 0 <= y < rows.len() implies (#[trigger] rows[y]).len() == rows[0].len() by {
                assert(composed@[y].len() == composed.width);
            }
        }
    }
    let target: Grid = match composed.to_target_grid() {
        Ok(target) => target,
        Err(reason) => {
            return Err(InterfaceError::Pattern { error: crate::published::PatternError::NotAGrid { reason } });
        },
    };
    let mut gadget: GadgetPattern = GadgetPattern::new(name, target);
    let mut literals: Vec<CellLiteral> = Vec::new();
    proof {
        lemma_composition_covers(all, composed);
        assert forall|i: int, j: int| #![trigger origins@[i], origins@[j]]
            0 <= i < origins@.len() && 0 <= j < origins@.len() implies {
            &&& origins@[i].0 - origins@[j].0 <= 0x4000_0000
            &&& origins@[i].1 - origins@[j].1 <= 0x4000_0000
        } by {
            assert(all[i].1 == origins@[i].0 && all[i].2 == origins@[i].1);
            assert(all[j].1 == origins@[j].0 && all[j].2 == origins@[j].1);
        }
        assert forall|i: int| 0 <= i < pieces@.len() implies (#[trigger] pieces@[i]).pattern.width <= 0x2fff_ffff
            && pieces@[i].pattern.height <= 0x2fff_ffff by {
            assert(all[i].1 + all[i].0.width - all[i].1 <= composed.width);
        }
    }
    let low: (isize, isize) = find_corner(origins);
    let mut k: usize = 0;
    while k < pieces.len()
        invariant
            k <= pieces@.len(),
            composites::pieces_wf(pieces@),
            origins@.len() == pieces@.len(),
            models == composites::shared_models(shared@),
            all == placements_of(pieces@, origins@),
            published::composable(all),
            is_corner(origins@, low),
            forall|i: int|
                0 <= i < pieces@.len() ==> (#[trigger] pieces@[i]).pattern.width <= 0x2fff_ffff
                    && pieces@[i].pattern.height <= 0x2fff_ffff,
            gadget.name@ == name@,
            gadget.target == target,
            holds_pieces(gadget, literals@, pieces@, origins@, models, k as nat),
        decreases pieces.len() - k,
    {
        assert(pieces@[k as int].wf());
        assert(0 <= origins@[k as int].0 - low.0 <= 0x4000_0000);
        let by: (isize, isize) = (origins[k].0 - low.0, origins[k].1 - low.1);
        gadget = add_ports(gadget, pieces, Ghost(origins@), shared, k, by);
        add_literals(&mut literals, pieces, Ghost(origins@), k, by);
        k += 1;
    }
    Ok(gadget.with_base_predecessor_literals(literals))
}

} // verus!
