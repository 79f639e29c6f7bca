//! The edges of patterns: the phases of their wires, and the border that holds them in.

use crate::encoding;
use crate::encoding::Cell;
use crate::gadget_verifier;
use crate::gadget_verifier::GadgetPattern;
use crate::overlays;
use crate::phases;
use crate::published;
use crate::published::{PublishedPattern, WireAnchors};
use crate::turning;
use vstd::prelude::*;

verus! {

/// The phases of wires tell how far apart two patterns lie whose wires meet: where the ends of
/// wires lie on each other, the second pattern lies off the edge of the first by the difference of
/// their phases, up to whole periods.
pub proof fn law_phases_tell_distances(
    one: WireAnchors,
    w: int,
    h: int,
    other: WireAnchors,
    other_w: int,
    other_h: int,
)
    ensures
        ({
            let (a, b) = (published::phases_of(one, w, h), published::phases_of(other, other_w, other_h));
            &&& a.0 is Some <==> one.east is Some
            &&& a.1 is Some <==> one.north is Some
            &&& a.2 is Some <==> one.west is Some
            &&& a.3 is Some <==> one.south is Some
            &&& a.0 is Some ==> -1 <= a.0->Some_0 <= 1
            &&& a.1 is Some ==> -1 <= a.1->Some_0 <= 1
            &&& a.2 is Some ==> -1 <= a.2->Some_0 <= 1
            &&& a.3 is Some ==> -1 <= a.3->Some_0 <= 1
            &&& one.east is Some && other.west is Some ==> phases::keeps_phase(
                one.east->Some_0.x - other.west->Some_0.x - w,
                a.0,
                b.2,
            )
            &&& one.south is Some && other.north is Some ==> phases::keeps_phase(
                one.south->Some_0.y - other.north->Some_0.y - h,
                a.3,
                b.1,
            )
        }),
{
}

/// The phases of a pattern whose rows and columns are exchanged are its own, those of the east and
/// the south exchanged, and those of the north and the west.
pub proof fn law_turned_phases(one: WireAnchors, other: WireAnchors, w: int, h: int)
    requires
        turning::is_turned(one.west, other.north),
        turning::is_turned(one.north, other.west),
        turning::is_turned(one.east, other.south),
        turning::is_turned(one.south, other.east),
    ensures
        ({
            let (a, b) = (published::phases_of(one, w, h), published::phases_of(other, h, w));
            a.0 == b.3 && a.1 == b.2 && a.2 == b.1 && a.3 == b.0
        }),
{
}

/// A port has a cell in a row, or else in a column.
pub open spec fn port_covers(gadget: &GadgetPattern, name: Seq<char>, level: bool, n: int) -> bool {
    exists|cell: Cell, alive: bool| #[trigger]
        turning::port_says(gadget, name, "0"@, cell, alive) && n == (if level {
            cell.1
        } else {
            cell.0
        })
}

/// A cell lies at the edge before a port.
pub open spec fn lies_before_port(gadget: &GadgetPattern, cell: Cell, w: int, h: int) -> bool {
    ||| cell.0 >= w - 1 && port_covers(gadget, "E"@, true, cell.1)
    ||| cell.0 <= 0 && port_covers(gadget, "W"@, true, cell.1)
    ||| cell.1 >= h - 1 && port_covers(gadget, "S"@, false, cell.0)
    ||| cell.1 <= 0 && port_covers(gadget, "N"@, false, cell.0)
}

proof fn lemma_covers(
    gadget: &GadgetPattern,
    name: Seq<char>,
    anchor: Option<encoding::CellCoord>,
    level: bool,
    n: int,
)
    requires
        turning::carries(gadget, name, anchor, level),
    ensures
        port_covers(gadget, name, level, n) == (anchor matches Some(end) && (if level {
            end.y - 1 <= n <= end.y + 2
        } else {
            end.x - 1 <= n <= end.x + 2
        })),
{
    let i = gadget_verifier::port_position(gadget.ports@, name);
    if let Some(end) = anchor {
        let literals = gadget.ports@[i].states@["0"@]@;
        assert(gadget.ports@[i].states@.dom().contains("0"@));
        assert(turning::shows_value(literals, end@, level, 0));
        let cell: Cell = if level {
            (end.x as int, n)
        } else {
            (n, end.y as int)
        };
        if if level {
            end.y - 1 <= n <= end.y + 2
        } else {
            end.x - 1 <= n <= end.x + 2
        } {
            assert(turning::says(literals, literals.len(), cell, true));
            assert(turning::port_says(gadget, name, "0"@, cell, true));
        }
        if port_covers(gadget, name, level, n) {
            let (c, alive) = choose|c: Cell, alive: bool| #[trigger]
                turning::port_says(gadget, name, "0"@, c, alive) && n == (if level {
                    c.1
                } else {
                    c.0
                });
            assert(turning::says(literals, literals.len(), c, alive));
        }
    }
}

/// The border of a pattern is held dead, on both sides of its edge, but before the ports; and nothing
/// else is fixed.
pub proof fn law_border_is_sealed(gadget: &GadgetPattern, pattern: &PublishedPattern, name: Seq<char>, cell: Cell)
    requires
        published::is_gadget_of(gadget, pattern, name),
    ensures
        ({
            let (w, h) = (gadget.target.width as int, gadget.target.height as int);
            let literals = gadget.base_predecessor_literals@;
            &&& !overlays::fixes(literals, cell, true)
            &&& overlays::fixes(literals, cell, false) <==> encoding::in_domain(cell, w, h) && !(0 < cell.0 < w - 1 && 0
                < cell.1 < h - 1) && !lies_before_port(gadget, cell, w, h)
        }),
{
    let (w, h) = (gadget.target.width as int, gadget.target.height as int);
    let anchors = published::anchors_of(pattern);
    let literals = gadget.base_predecessor_literals@;
    turning::law_port_values(gadget, pattern, name);
    lemma_covers(gadget, "E"@, anchors.east, true, cell.1);
    lemma_covers(gadget, "W"@, anchors.west, true, cell.1);
    lemma_covers(gadget, "S"@, anchors.south, false, cell.0);
    lemma_covers(gadget, "N"@, anchors.north, false, cell.0);
    if encoding::in_domain(cell, w, h) {
        assert(lies_before_port(gadget, cell, w, h) == published::at_opening(cell, w, h, anchors));
        assert(published::at_border(cell, w, h) == !(0 < cell.0 < w - 1 && 0 < cell.1 < h - 1));
    }
    if published::at_border(cell, w, h) && !published::at_opening(cell, w, h, anchors) {
        let i = choose|i: int| 0 <= i < literals.len() && (#[trigger] literals[i]).coord@ == cell;
        assert(literals[i].coord@ == cell);
    }
}

/// Two values are the same to a wire: equal, or both those of wire cells.
pub open spec fn looks_alike(a: u8, b: u8) -> bool {
    a == b || ((a == 1 || a == 3) && (b == 1 || b == 3))
}

/// Where the wires of a pattern end depends on no more than which cells are alive and which of
/// them belong to wires: the two values of wire cells can stand for each other.
pub proof fn law_wire_values_alike(rows: Seq<Seq<u8>>, other: Seq<Seq<u8>>, w: int, h: int, anchors: WireAnchors)
    requires
        turning::has_size(rows, w, h),
        turning::has_size(other, w, h),
        w >= 4,
        h >= 4,
        forall|y: int, x: int| #![trigger rows[y][x]] #![trigger other[y][x]]
            0 <= y < h && 0 <= x < w ==> looks_alike(rows[y][x], other[y][x]),
        published::are_anchors(rows, w, h, anchors),
    ensures
        published::are_anchors(other, w, h, anchors),
{
    assert forall|y: int, x: int| 0 <= y < h - 1 && 0 <= x < w - 1 implies #[trigger] published::lit_at(rows, y, x)
        == published::lit_at(other, y, x) && published::wire_at(rows, y, x) == published::wire_at(other, y, x) by {
        assert(looks_alike(rows[y][x], other[y][x]) && looks_alike(rows[y + 1][x], other[y + 1][x]));
        assert(looks_alike(rows[y][x + 1], other[y][x + 1]) && looks_alike(rows[y + 1][x + 1], other[y + 1][x + 1]));
    }
    assert forall|y: int, x: int| #[trigger] published::west_wire(rows, h, y, x) == published::west_wire(other, h, y, x) by {
        if 0 <= y < h - 1 && 0 <= x <= 2 {
            assert(published::lit_at(rows, y, 0) == published::lit_at(other, y, 0));
            assert(published::lit_at(rows, y, x) == published::lit_at(other, y, x));
        }
    }
    assert forall|y: int, x: int| #[trigger] published::east_wire(rows, w, h, y, x) == published::east_wire(
        other,
        w,
        h,
        y,
        x,
    ) by {
        if 0 <= y < h - 1 && w - 4 <= x <= w - 2 {
            assert(published::lit_at(rows, y, w - 2) == published::lit_at(other, y, w - 2));
            assert(published::lit_at(rows, y, x) == published::lit_at(other, y, x));
        }
    }
    assert forall|y: int, x: int| #[trigger] published::north_wire(rows, w, y, x) == published::north_wire(
        other,
        w,
        y,
        x,
    ) by {
        if 0 <= x < w - 1 && 0 <= y <= 2 {
            assert(published::lit_at(rows, 0, x) == published::lit_at(other, 0, x));
            assert(published::lit_at(rows, y, x) == published::lit_at(other, y, x));
        }
    }
    assert forall|y: int, x: int| #[trigger] published::south_wire(rows, w, h, y, x) == published::south_wire(
        other,
        w,
        h,
        y,
        x,
    ) by {
        if 0 <= x < w - 1 && h - 4 <= y <= h - 2 {
            assert(published::lit_at(rows, h - 2, x) == published::lit_at(other, h - 2, x));
            assert(published::lit_at(rows, y, x) == published::lit_at(other, y, x));
        }
    }
    lemma_same_wires(rows, other, w, h, anchors);
}

proof fn lemma_same_wires(rows: Seq<Seq<u8>>, other: Seq<Seq<u8>>, w: int, h: int, anchors: WireAnchors)
    requires
        published::are_anchors(rows, w, h, anchors),
        forall|y: int, x: int| #[trigger] published::west_wire(rows, h, y, x) == published::west_wire(other, h, y, x),
        forall|y: int, x: int| #[trigger]
            published::east_wire(rows, w, h, y, x) == published::east_wire(other, w, h, y, x),
        forall|y: int, x: int| #[trigger] published::north_wire(rows, w, y, x) == published::north_wire(other, w, y, x),
        forall|y: int, x: int| #[trigger]
            published::south_wire(rows, w, h, y, x) == published::south_wire(other, w, h, y, x),
    ensures
        published::are_anchors(other, w, h, anchors),
{
    assert forall|y: int, x: int| #[trigger] published::west_wire(other, h, y, x) == published::west_wire(rows, h, y, x) by {
        assert(published::west_wire(rows, h, y, x) == published::west_wire(other, h, y, x));
    }
    assert forall|y: int, x: int| #[trigger] published::east_wire(other, w, h, y, x) == published::east_wire(
        rows,
        w,
        h,
        y,
        x,
    ) by {
        assert(published::east_wire(rows, w, h, y, x) == published::east_wire(other, w, h, y, x));
    }
    assert forall|y: int, x: int| #[trigger] published::north_wire(other, w, y, x) == published::north_wire(
        rows,
        w,
        y,
        x,
    ) by {
        assert(published::north_wire(rows, w, y, x) == published::north_wire(other, w, y, x));
    }
    assert forall|y: int, x: int| #[trigger] published::south_wire(other, w, h, y, x) == published::south_wire(
        rows,
        w,
        h,
        y,
        x,
    ) by {
        assert(published::south_wire(rows, w, h, y, x) == published::south_wire(other, w, h, y, x));
    }
}

} // verus!
