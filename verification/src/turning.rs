//! Patterns with their rows and columns exchanged, and what their ports have in common.

use crate::encoding;
use crate::encoding::{Cell, CellCoord};
use crate::gadget_verifier;
use crate::gadget_verifier::{CellLiteral, GadgetPattern, Needs, PortAssignment};
use crate::discharge;
use crate::published;
use crate::published::{PublishedPattern, WireAnchors};
use vstd::prelude::*;

verus! {

/// A cell with its coordinates exchanged.
pub open spec fn turned(cell: Cell) -> Cell {
    (cell.1, cell.0)
}

/// Rows turned into columns.
pub open spec fn turned_rows<T>(rows: Seq<Seq<T>>) -> Seq<Seq<T>> {
    Seq::new(rows[0].len(), |y: int| Seq::new(rows.len(), |x: int| rows[x][y]))
}

/// The rows are as long as stated, and as many.
pub open spec fn has_size<T>(rows: Seq<Seq<T>>, w: int, h: int) -> bool {
    &&& rows.len() == h
    &&& forall|y: int| 0 <= y < h ==> (#[trigger] rows[y]).len() == w
}

/// One cell is another with its coordinates exchanged.
pub open spec fn is_turned(one: Option<CellCoord>, other: Option<CellCoord>) -> bool {
    match (one, other) {
        (Some(a), Some(b)) => a.x == b.y && a.y == b.x,
        (None, None) => true,
        _ => false,
    }
}

/// The wires of a pattern whose rows and columns are exchanged end where its own do, the western
/// ones in the north and the eastern ones in the south.
pub proof fn law_turned_anchors(rows: Seq<Seq<u8>>, w: int, h: int, anchors: WireAnchors, other: WireAnchors)
    requires
        w > 0,
        h > 0,
        has_size(rows, w, h),
        published::are_anchors(rows, w, h, anchors),
        is_turned(anchors.west, other.north),
        is_turned(anchors.north, other.west),
        is_turned(anchors.east, other.south),
        is_turned(anchors.south, other.east),
        w >= 4,
        h >= 4,
    ensures
        published::are_anchors(turned_rows(rows), h, w, other),
{
    let turn = turned_rows(rows);
    assert forall|y: int, x: int| 0 <= y < h && 0 <= x < w implies #[trigger] rows[y][x] == turn[x][y] by {
        assert(rows[y].len() == w);
    }
    assert forall|y: int, x: int| #[trigger] published::west_wire(turn, w, y, x) <==> published::north_wire(
        rows,
        w,
        x,
        y,
    ) by {
        lemma_turned_wire(rows, w, h, x, y);
        lemma_turned_lit(rows, w, h, 0, y);
    }
    assert forall|y: int, x: int| #[trigger] published::north_wire(turn, h, y, x) <==> published::west_wire(
        rows,
        h,
        x,
        y,
    ) by {
        lemma_turned_wire(rows, w, h, x, y);
        lemma_turned_lit(rows, w, h, x, 0);
    }
    assert forall|y: int, x: int| #[trigger] published::east_wire(turn, h, w, y, x) <==> published::south_wire(
        rows,
        w,
        h,
        x,
        y,
    ) by {
        lemma_turned_wire(rows, w, h, x, y);
        lemma_turned_lit(rows, w, h, h - 2, y);
    }
    assert forall|y: int, x: int| #[trigger] published::south_wire(turn, h, w, y, x) <==> published::east_wire(
        rows,
        w,
        h,
        x,
        y,
    ) by {
        lemma_turned_wire(rows, w, h, x, y);
        lemma_turned_lit(rows, w, h, x, w - 2);
    }
    lemma_turned_west(rows, turn, w, h, anchors, other);
    lemma_turned_east(rows, turn, w, h, anchors, other);
}

proof fn lemma_turned_west(
    rows: Seq<Seq<u8>>,
    turn: Seq<Seq<u8>>,
    w: int,
    h: int,
    anchors: WireAnchors,
    other: WireAnchors,
)
    requires
        published::are_anchors(rows, w, h, anchors),
        is_turned(anchors.west, other.north),
        is_turned(anchors.north, other.west),
        forall|y: int, x: int| #[trigger] published::west_wire(turn, w, y, x) <==> published::north_wire(rows, w, x, y),
        forall|y: int, x: int| #[trigger] published::north_wire(turn, h, y, x) <==> published::west_wire(rows, h, x, y),
    ensures
        published::is_west_anchor(turn, w, other.west),
        published::is_north_anchor(turn, h, other.north),
{
    assert forall|y: int, x: int| #[trigger] published::west_wire(turn, w, y, x) implies published::north_wire(
        rows,
        w,
        x,
        y,
    ) by {}
    if let Some(c) = other.west {
        assert(published::north_wire(rows, w, c.x as int, c.y as int));
        assert(published::west_wire(turn, w, c.y as int, c.x as int));
    }
    if let Some(c) = other.north {
        assert(published::west_wire(rows, h, c.x as int, c.y as int));
        assert(published::north_wire(turn, h, c.y as int, c.x as int));
    }
}

proof fn lemma_turned_east(
    rows: Seq<Seq<u8>>,
    turn: Seq<Seq<u8>>,
    w: int,
    h: int,
    anchors: WireAnchors,
    other: WireAnchors,
)
    requires
        published::are_anchors(rows, w, h, anchors),
        is_turned(anchors.east, other.south),
        is_turned(anchors.south, other.east),
        forall|y: int, x: int| #[trigger]
            published::east_wire(turn, h, w, y, x) <==> published::south_wire(rows, w, h, x, y),
        forall|y: int, x: int| #[trigger]
            published::south_wire(turn, h, w, y, x) <==> published::east_wire(rows, w, h, x, y),
    ensures
        published::is_east_anchor(turn, h, w, other.east),
        published::is_south_anchor(turn, h, w, other.south),
{
    if let Some(c) = other.east {
        assert(published::south_wire(rows, w, h, c.x as int, c.y as int));
        assert(published::east_wire(turn, h, w, c.y as int, c.x as int));
    }
    if let Some(c) = other.south {
        assert(published::east_wire(rows, w, h, c.x as int, c.y as int));
        assert(published::south_wire(turn, h, w, c.y as int, c.x as int));
    }
}

proof fn lemma_turned_wire(rows: Seq<Seq<u8>>, w: int, h: int, y: int, x: int)
    requires
        has_size(rows, w, h),
        w > 0,
        h > 0,
    ensures
        0 <= y < h - 1 && 0 <= x < w - 1 ==> published::wire_at(rows, y, x) == published::wire_at(turned_rows(rows), x, y),
{
    if 0 <= y < h - 1 && 0 <= x < w - 1 {
        assert(rows[y].len() == w && rows[y + 1].len() == w && rows[0].len() == w);
    }
}

proof fn lemma_turned_lit(rows: Seq<Seq<u8>>, w: int, h: int, y: int, x: int)
    requires
        has_size(rows, w, h),
        w > 0,
        h > 0,
    ensures
        0 <= y < h - 1 && 0 <= x < w - 1 ==> published::lit_at(rows, y, x) == published::lit_at(turned_rows(rows), x, y),
{
    if 0 <= y < h - 1 && 0 <= x < w - 1 {
        assert(rows[y].len() == w && rows[y + 1].len() == w && rows[0].len() == w);
    }
}

/// How far a cell lies from the first of a port's two lines.
pub open spec fn line_of(cell: Cell, anchor: Cell, level: bool) -> int {
    if level {
        cell.0 - anchor.0
    } else {
        cell.1 - anchor.1
    }
}

/// How far a cell lies along a port's lines.
pub open spec fn along_of(cell: Cell, anchor: Cell, level: bool) -> int {
    if level {
        cell.1 - anchor.1
    } else {
        cell.0 - anchor.0
    }
}

/// One of the first `k` literals says whether a cell is alive.
pub open spec fn says(literals: Seq<CellLiteral>, k: nat, cell: Cell, alive: bool) -> bool {
    exists|i: int| 0 <= i < k && (#[trigger] literals[i]).coord@ == cell && literals[i].alive == alive
}

/// The state of a wire whose lines run across it: of two lines of four cells, the one whose number
/// is the value is alive, and the other is dead. A wire that runs from west to east has columns as
/// its lines, and one that runs from north to south has rows.
pub open spec fn shows_value(literals: Seq<CellLiteral>, anchor: Cell, level: bool, value: int) -> bool {
    forall|cell: Cell, alive: bool| #[trigger]
        says(literals, literals.len(), cell, alive) <==> (line_of(cell, anchor, level) == 0 || line_of(
            cell,
            anchor,
            level,
        ) == 1) && -1 <= along_of(cell, anchor, level) <= 2 && alive == (line_of(cell, anchor, level) == value)
}

/// The gadget has a port of that name, whose two states are the two values of its wire.
pub open spec fn carries(gadget: &GadgetPattern, name: Seq<char>, anchor: Option<CellCoord>, level: bool) -> bool {
    let i = gadget_verifier::port_position(gadget.ports@, name);
    match anchor {
        None => i == gadget.ports@.len(),
        Some(end) => {
            &&& 0 <= i < gadget.ports@.len()
            &&& gadget.ports@[i].name@ == name
            &&& gadget.ports@[i].states@.dom() == set!["0"@, "1"@]
            &&& shows_value(gadget.ports@[i].states@["0"@]@, end@, level, 0)
            &&& shows_value(gadget.ports@[i].states@["1"@]@, end@, level, 1)
        },
    }
}

proof fn lemma_column_value(literals: Seq<CellLiteral>, anchor: Cell, value: int)
    requires
        published::literal_models(literals) == published::column_literals(anchor, value),
        value == 0 || value == 1,
    ensures
        shows_value(literals, anchor, true, value),
{
    let model = published::column_literals(anchor, value);
    assert(literals.len() == model.len());
    assert forall|i: int| 0 <= i < literals.len() implies ((#[trigger] literals[i]).coord@, literals[i].alive) == model[i] by {
        assert(published::literal_models(literals)[i] == model[i]);
    }
    assert forall|cell: Cell, alive: bool| #[trigger] says(literals, literals.len(), cell, alive) <==> (line_of(
        cell,
        anchor,
        true,
    ) == 0 || line_of(cell, anchor, true) == 1) && -1 <= along_of(cell, anchor, true) <= 2 && alive == (line_of(
        cell,
        anchor,
        true,
    ) == value) by {
        let (line, along) = (line_of(cell, anchor, true), along_of(cell, anchor, true));
        if (line == 0 || line == 1) && -1 <= along <= 2 && alive == (line == value) {
            let i = 4 * line + along + 1;
            assert(0 <= i < 8 && i / 4 == line && i % 4 == along + 1);
            assert(literals[i].coord@ == cell);
        }
    }
}

proof fn lemma_row_value(literals: Seq<CellLiteral>, anchor: Cell, value: int)
    requires
        published::literal_models(literals) == published::row_literals(anchor, value),
        value == 0 || value == 1,
    ensures
        shows_value(literals, anchor, false, value),
{
    let model = published::row_literals(anchor, value);
    assert(literals.len() == model.len());
    assert forall|i: int| 0 <= i < literals.len() implies ((#[trigger] literals[i]).coord@, literals[i].alive) == model[i] by {
        assert(published::literal_models(literals)[i] == model[i]);
    }
    assert forall|cell: Cell, alive: bool| #[trigger] says(literals, literals.len(), cell, alive) <==> (line_of(
        cell,
        anchor,
        false,
    ) == 0 || line_of(cell, anchor, false) == 1) && -1 <= along_of(cell, anchor, false) <= 2 && alive == (line_of(
        cell,
        anchor,
        false,
    ) == value) by {
        let (line, along) = (line_of(cell, anchor, false), along_of(cell, anchor, false));
        if (line == 0 || line == 1) && -1 <= along <= 2 && alive == (line == value) {
            let i = 2 * (along + 1) + line;
            assert(0 <= i < 8 && i % 2 == line && i / 2 == along + 1);
            assert(literals[i].coord@ == cell);
        }
    }
}

/// The states of ports mean the same on all four sides: state 0 fixes the four cells of the
/// first line of a wire alive and those of the second dead, and state 1 the reverse. The
/// lines of wires in the east and in the west are columns, and those of the others rows.
pub proof fn law_port_values(gadget: &GadgetPattern, pattern: &PublishedPattern, name: Seq<char>)
    requires
        published::is_gadget_of(gadget, pattern, name),
    ensures
        carries(gadget, "E"@, published::anchors_of(pattern).east, true),
        carries(gadget, "N"@, published::anchors_of(pattern).north, false),
        carries(gadget, "W"@, published::anchors_of(pattern).west, true),
        carries(gadget, "S"@, published::anchors_of(pattern).south, false),
        forall|i: int|
            0 <= i < gadget.ports@.len() ==> (#[trigger] gadget.ports@[i]).name@ == "E"@ || gadget.ports@[i].name@ == "N"@
                || gadget.ports@[i].name@ == "W"@ || gadget.ports@[i].name@ == "S"@,
{
    let anchors = published::anchors_of(pattern);
    let wires = published::wires_of(anchors);
    let ports = gadget.ports@;
    discharge::lemma_port_texts();
    let e: int = if anchors.east is Some { 1 } else { 0 };
    let n: int = if anchors.north is Some { 1 } else { 0 };
    let w: int = if anchors.west is Some { 1 } else { 0 };
    let s: int = if anchors.south is Some { 1 } else { 0 };
    assert(ports.len() == e + n + w + s);
    assert forall|i: int| 0 <= i < ports.len() implies (#[trigger] ports[i]).name@ == wires[i].0 by {
        assert(published::is_port_of(ports[i], wires[i]));
    }
    assert(e == 1 ==> wires[0] == ("E"@, anchors.east->0@, true));
    assert(n == 1 ==> wires[e] == ("N"@, anchors.north->0@, false));
    assert(w == 1 ==> wires[e + n] == ("W"@, anchors.west->0@, true));
    assert(s == 1 ==> wires[e + n + w] == ("S"@, anchors.south->0@, false));
    lemma_carries(gadget, "E"@, anchors.east, true, if e == 1 { 0 } else { ports.len() as int });
    lemma_carries(gadget, "N"@, anchors.north, false, if n == 1 { e } else { ports.len() as int });
    lemma_carries(gadget, "W"@, anchors.west, true, if w == 1 { e + n } else { ports.len() as int });
    lemma_carries(gadget, "S"@, anchors.south, false, if s == 1 { e + n + w } else { ports.len() as int });
}

proof fn lemma_carries(gadget: &GadgetPattern, name: Seq<char>, anchor: Option<CellCoord>, level: bool, i: int)
    requires
        0 <= i <= gadget.ports@.len(),
        i == gadget.ports@.len() <==> anchor is None,
        forall|j: int| 0 <= j < i ==> (#[trigger] gadget.ports@[j]).name@ != name,
        i < gadget.ports@.len() ==> published::is_port_of(gadget.ports@[i], (name, anchor->0@, level)),
    ensures
        carries(gadget, name, anchor, level),
{
    gadget_verifier::lemma_port_position(gadget.ports@, name, i);
    if let Some(end) = anchor {
        let port = gadget.ports@[i];
        if level {
            lemma_column_value(port.states@["0"@]@, end@, 0);
            lemma_column_value(port.states@["1"@]@, end@, 1);
        } else {
            lemma_row_value(port.states@["0"@]@, end@, 0);
            lemma_row_value(port.states@["1"@]@, end@, 1);
        }
    }
}

/// The side on which a wire lies when rows and columns are exchanged.
pub open spec fn turned_name(name: Seq<char>) -> Seq<char> {
    if name == "E"@ {
        "S"@
    } else if name == "S"@ {
        "E"@
    } else if name == "N"@ {
        "W"@
    } else if name == "W"@ {
        "N"@
    } else {
        name
    }
}

/// The cells with their coordinates exchanged.
pub open spec fn turned_cells(live: Set<Cell>) -> Set<Cell> {
    Set::new(|cell: Cell| live.contains(turned(cell)))
}

/// The needs say whether a cell is alive.
pub open spec fn needed(needs: Needs, cell: Cell, alive: bool) -> bool {
    needs.contains_key(cell) && needs[cell] == alive
}

proof fn lemma_literals_needed(
    gadget: &GadgetPattern,
    needs: Needs,
    literals: Seq<CellLiteral>,
    k: nat,
    source: Seq<char>,
)
    requires
        k <= literals.len(),
        gadget_verifier::with_literals(gadget, needs, literals, k, source) is Ok,
    ensures
        forall|cell: Cell, alive: bool| #[trigger]
            needed(gadget_verifier::with_literals(gadget, needs, literals, k, source)->Ok_0, cell, alive) <==> needed(
                needs,
                cell,
                alive,
            ) || says(literals, k, cell, alive),
    decreases k,
{
    let after = gadget_verifier::with_literals(gadget, needs, literals, k, source)->Ok_0;
    if k > 0 {
        lemma_literals_needed(gadget, needs, literals, (k - 1) as nat, source);
        let earlier = gadget_verifier::with_literals(gadget, needs, literals, (k - 1) as nat, source)->Ok_0;
        let last = literals[k - 1];
        assert forall|cell: Cell, alive: bool| #[trigger] needed(after, cell, alive) <==> needed(needs, cell, alive) || says(
            literals,
            k,
            cell,
            alive,
        ) by {
            assert(needed(earlier, cell, alive) <==> needed(needs, cell, alive) || says(
                literals,
                (k - 1) as nat,
                cell,
                alive,
            ));
            if says(literals, k, cell, alive) && !says(literals, (k - 1) as nat, cell, alive) {
                let i = choose|i: int|
                    0 <= i < k && (#[trigger] literals[i]).coord@ == cell && literals[i].alive == alive;
                assert(i == k - 1);
            }
            if cell == last.coord@ && alive == last.alive {
                assert(literals[k - 1].coord@ == cell);
                assert(says(literals, k, cell, alive));
            }
            if says(literals, (k - 1) as nat, cell, alive) {
                let i = choose|i: int|
                    0 <= i < k - 1 && (#[trigger] literals[i]).coord@ == cell && literals[i].alive == alive;
                assert(says(literals, k, cell, alive));
            }
        }
    }
}

/// A state of a port says whether a cell is alive.
pub open spec fn port_says(gadget: &GadgetPattern, name: Seq<char>, state: Seq<char>, cell: Cell, alive: bool) -> bool {
    let i = gadget_verifier::port_position(gadget.ports@, name);
    let literals = gadget.ports@[i].states@[state]@;
    i < gadget.ports@.len() && gadget.ports@[i].states@.contains_key(state) && says(literals, literals.len(), cell, alive)
}

/// The gadget, or one of the ports that an assignment names, says whether a cell is alive.
pub open spec fn told(gadget: &GadgetPattern, states: Map<Seq<char>, Seq<char>>, cell: Cell, alive: bool) -> bool {
    ||| says(gadget.base_predecessor_literals@, gadget.base_predecessor_literals@.len(), cell, alive)
    ||| exists|name: Seq<char>| #[trigger]
        states.contains_key(name) && port_says(gadget, name, states[name], cell, alive)
}

proof fn lemma_needs_told(gadget: &GadgetPattern, assignment: &PortAssignment, k: nat, cell: Cell, alive: bool)
    requires
        k <= assignment.states.key_seq().len(),
        assignment.states.value_seq().len() == assignment.states.key_seq().len(),
        gadget_verifier::needs_up_to(gadget, assignment, k) is Ok,
    ensures
        needed(gadget_verifier::needs_up_to(gadget, assignment, k)->Ok_0, cell, alive) <==> says(
            gadget.base_predecessor_literals@,
            gadget.base_predecessor_literals@.len(),
            cell,
            alive,
        ) || exists|j: int|
            0 <= j < k && port_says(
                gadget,
                #[trigger] assignment.states.key_seq()[j],
                assignment.states.value_seq()[j]@,
                cell,
                alive,
            ),
        forall|j: int|
            0 <= j < k ==> gadget_verifier::port_position(gadget.ports@, #[trigger] assignment.states.key_seq()[j])
                < gadget.ports@.len(),
    decreases k,
{
    let keys = assignment.states.key_seq();
    let values = assignment.states.value_seq();
    let base = gadget.base_predecessor_literals@;
    let needs = gadget_verifier::needs_up_to(gadget, assignment, k)->Ok_0;
    lemma_position_low(gadget.ports@, keys[k - 1]);
    if k == 0 {
        lemma_literals_needed(gadget, Map::empty(), base, base.len(), "base predecessor literal"@);
        assert(!needed(Map::<Cell, bool>::empty(), cell, alive));
    } else {
        lemma_needs_told(gadget, assignment, (k - 1) as nat, cell, alive);
        let earlier = gadget_verifier::needs_up_to(gadget, assignment, (k - 1) as nat)->Ok_0;
        let i = gadget_verifier::port_position(gadget.ports@, keys[k - 1]);
        let literals = gadget.ports@[i].states@[values[k - 1]@]@;
        lemma_literals_needed(
            gadget,
            earlier,
            literals,
            literals.len(),
            gadget_verifier::state_source(keys[k - 1], values[k - 1]@),
        );
        assert(needed(needs, cell, alive) <==> needed(earlier, cell, alive) || says(literals, literals.len(), cell, alive));
        if says(literals, literals.len(), cell, alive) {
            assert(port_says(gadget, keys[k - 1], values[k - 1]@, cell, alive));
        }
        if exists|j: int| 0 <= j < k && port_says(gadget, #[trigger] keys[j], values[j]@, cell, alive) {
            let j = choose|j: int| 0 <= j < k && port_says(gadget, #[trigger] keys[j], values[j]@, cell, alive);
            if j < k - 1 {
                assert(needed(earlier, cell, alive));
            }
        }
    }
}

proof fn lemma_position_low(ports: Seq<gadget_verifier::Port>, name: Seq<char>)
    ensures
        0 <= gadget_verifier::port_position(ports, name) <= ports.len(),
    decreases ports.len(),
{
    if ports.len() > 0 && ports[0].name@ != name {
        lemma_position_low(ports.drop_first(), name);
    }
}

/// What an assignment asks for is what the gadget and the named states say, whatever their order.
pub proof fn law_needs_are_told(gadget: &GadgetPattern, assignment: &PortAssignment, cell: Cell, alive: bool)
    requires
        assignment.wf(),
        gadget_verifier::needs_of(gadget, assignment) is Ok,
    ensures
        needed(gadget_verifier::needs_of(gadget, assignment)->Ok_0, cell, alive) <==> told(
            gadget,
            assignment@,
            cell,
            alive,
        ),
        forall|name: Seq<char>| #[trigger]
            assignment@.contains_key(name) ==> gadget_verifier::port_position(gadget.ports@, name) < gadget.ports@.len(),
{
    assignment.states.lemma_entries();
    let keys = assignment.states.key_seq();
    let values = assignment.states.value_seq();
    lemma_needs_told(gadget, assignment, keys.len(), cell, alive);
    assert forall|j: int| 0 <= j < keys.len() implies assignment@.contains_key(#[trigger] keys[j]) && assignment@[keys[j]]
        == values[j]@ by {
        assert(keys.contains(keys[j]));
        assert(assignment.states@.dom().contains(keys[j]));
    }
    if exists|j: int| 0 <= j < keys.len() && port_says(gadget, #[trigger] keys[j], values[j]@, cell, alive) {
        let j = choose|j: int| 0 <= j < keys.len() && port_says(gadget, #[trigger] keys[j], values[j]@, cell, alive);
        assert(assignment@.contains_key(keys[j]));
    }
    assert forall|name: Seq<char>| #[trigger] assignment@.contains_key(name) implies exists|j: int|
        0 <= j < keys.len() && #[trigger] keys[j] == name by {
        assert(assignment.states@.dom().contains(name));
        assert(keys.to_set().contains(name));
        assert(keys.contains(name));
    }
}

proof fn lemma_turned_next(live: Set<Cell>, x: int, y: int)
    ensures
        encoding::next_alive(turned_cells(live), x, y) == encoding::next_alive(live, y, x),
{
    let turn = turned_cells(live);
    assert(turn.contains((x, y)) == live.contains((y, x)));
    assert(turn.contains((x - 1, y - 1)) == live.contains((y - 1, x - 1)));
    assert(turn.contains((x, y - 1)) == live.contains((y - 1, x)));
    assert(turn.contains((x + 1, y - 1)) == live.contains((y - 1, x + 1)));
    assert(turn.contains((x - 1, y)) == live.contains((y, x - 1)));
    assert(turn.contains((x + 1, y)) == live.contains((y, x + 1)));
    assert(turn.contains((x - 1, y + 1)) == live.contains((y + 1, x - 1)));
    assert(turn.contains((x, y + 1)) == live.contains((y + 1, x)));
    assert(turn.contains((x + 1, y + 1)) == live.contains((y + 1, x + 1)));
}

/// A predecessor of a pattern, turned, is one of the turned pattern.
pub proof fn law_turned_predecessor(live: Set<Cell>, rows: Seq<Seq<bool>>, w: int, h: int)
    requires
        w > 0,
        h > 0,
        has_size(rows, w, h),
        encoding::is_preimage(live, rows),
    ensures
        encoding::is_preimage(turned_cells(live), turned_rows(rows)),
{
    let turn = turned_rows(rows);
    assert(rows[0].len() == w);
    assert forall|y: int, x: int| 0 <= y < turn.len() && 0 <= x < turn[y].len() implies #[trigger] encoding::next_alive(
        turned_cells(live),
        x,
        y,
    ) == turn[y][x] by {
        lemma_turned_next(live, x, y);
        assert(rows[x].len() == w);
        assert(encoding::next_alive(live, y, x) == rows[x][y]);
    }
}

/// The names of wires.
pub open spec fn is_side(name: Seq<char>) -> bool {
    name == "E"@ || name == "N"@ || name == "W"@ || name == "S"@
}

/// One gadget says of a turned cell what another says of the cell, with the sides exchanged.
proof fn lemma_turned_told(
    gadget: &GadgetPattern,
    other: &GadgetPattern,
    pattern: &PublishedPattern,
    turn: &PublishedPattern,
    states: Map<Seq<char>, Seq<char>>,
    turned_states: Map<Seq<char>, Seq<char>>,
    cell: Cell,
    alive: bool,
)
    requires
        published::is_gadget_of(gadget, pattern, gadget.name@),
        published::is_gadget_of(other, turn, other.name@),
        turn.width == pattern.height,
        turn.height == pattern.width,
        is_turned(published::anchors_of(pattern).west, published::anchors_of(turn).north),
        is_turned(published::anchors_of(pattern).north, published::anchors_of(turn).west),
        is_turned(published::anchors_of(pattern).east, published::anchors_of(turn).south),
        is_turned(published::anchors_of(pattern).south, published::anchors_of(turn).east),
        forall|name: Seq<char>| #[trigger] states.contains_key(name) ==> is_side(name),
        forall|name: Seq<char>| #[trigger]
            states.contains_key(name) ==> turned_states.contains_key(turned_name(name)) && turned_states[turned_name(name)]
                == states[name],
        told(gadget, states, cell, alive),
    ensures
        told(other, turned_states, turned(cell), alive),
{
    law_port_values(gadget, pattern, gadget.name@);
    law_port_values(other, turn, other.name@);
    discharge::lemma_port_texts();
    let (w, h) = (pattern.width as int, pattern.height as int);
    let base = gadget.base_predecessor_literals@;
    let turned_base = other.base_predecessor_literals@;
    if says(base, base.len(), cell, alive) {
        let i = choose|i: int|
            0 <= i < base.len() && (#[trigger] base[i]).coord@ == cell && base[i].alive == alive;
        assert(published::at_border(base[i].coord@, w, h));
        assert(!published::at_opening(base[i].coord@, w, h, published::anchors_of(pattern)));
        assert(published::at_border(turned(cell), h, w));
        assert(!published::at_opening(turned(cell), h, w, published::anchors_of(turn)));
        let j = choose|j: int| 0 <= j < turned_base.len() && (#[trigger] turned_base[j]).coord@ == turned(cell);
        assert(turned_base[j].coord@ == turned(cell) && !turned_base[j].alive);
        assert(says(turned_base, turned_base.len(), turned(cell), alive));
    } else {
        let name = choose|name: Seq<char>| #[trigger]
            states.contains_key(name) && port_says(gadget, name, states[name], cell, alive);
        let state = states[name];
        assert(turned_states.contains_key(turned_name(name)));
        let i = gadget_verifier::port_position(gadget.ports@, name);
        let j = gadget_verifier::port_position(other.ports@, turned_name(name));
        assert(state == "0"@ || state == "1"@) by {
            assert(gadget.ports@[i].states@.dom().contains(state));
        }
        assert(other.ports@[j].states@.dom().contains(state));
        assert(says(
            other.ports@[j].states@[state]@,
            other.ports@[j].states@[state]@.len(),
            turned(cell),
            alive,
        ));
        assert(port_says(other, turned_name(name), state, turned(cell), alive));
    }
}

proof fn lemma_turned_allows(
    gadget: &GadgetPattern,
    other: &GadgetPattern,
    pattern: &PublishedPattern,
    turn: &PublishedPattern,
    assignment: &PortAssignment,
    turned_assignment: &PortAssignment,
)
    requires
        pattern.wf(),
        turn.wf(),
        turn@ == turned_rows(pattern@),
        pattern.width > 0,
        pattern.height > 0,
        turn.width == pattern.height,
        turn.height == pattern.width,
        published::is_gadget_of(gadget, pattern, gadget.name@),
        published::is_gadget_of(other, turn, other.name@),
        is_turned(published::anchors_of(pattern).west, published::anchors_of(turn).north),
        is_turned(published::anchors_of(pattern).north, published::anchors_of(turn).west),
        is_turned(published::anchors_of(pattern).east, published::anchors_of(turn).south),
        is_turned(published::anchors_of(pattern).south, published::anchors_of(turn).east),
        assignment.wf(),
        turned_assignment.wf(),
        forall|name: Seq<char>| #[trigger]
            turned_assignment@.contains_key(name) ==> assignment@.contains_key(turned_name(name))
                && turned_assignment@[name] == assignment@[turned_name(name)],
        gadget_verifier::needs_of(gadget, assignment) is Ok,
        gadget_verifier::needs_of(other, turned_assignment) is Ok,
        gadget_verifier::allows(gadget, gadget_verifier::needs_of(gadget, assignment)->Ok_0),
    ensures
        gadget_verifier::allows(other, gadget_verifier::needs_of(other, turned_assignment)->Ok_0),
{
    let needs = gadget_verifier::needs_of(gadget, assignment)->Ok_0;
    let turned_needs = gadget_verifier::needs_of(other, turned_assignment)->Ok_0;
    let live = choose|live: Set<Cell>| gadget_verifier::is_witness(gadget, needs, live);
    let (w, h) = (pattern.width as int, pattern.height as int);
    let rows = published::alive_rows(pattern@);
    assert(has_size(rows, w, h)) by {
        assert forall|y: int| 0 <= y < h implies (#[trigger] rows[y]).len() == w by {
            assert(pattern@[y].len() == w);
        }
    }
    law_turned_predecessor(live, rows, w, h);
    assert(turned_rows(rows) =~= published::alive_rows(turn@)) by {
        assert(pattern@[0].len() == w);
        assert forall|y: int| 0 <= y < w implies #[trigger] turned_rows(rows)[y] =~= published::alive_rows(turn@)[y] by {
            assert forall|x: int| 0 <= x < h implies rows[x][y] == (turn@[y][x] > 0) by {
                assert(pattern@[x].len() == w);
            }
        }
    }
    let turned_live = turned_cells(live);
    law_port_values(other, turn, other.name@);
    assert forall|cell: Cell| #[trigger] turned_needs.contains_key(cell) implies turned_live.contains(cell)
        == turned_needs[cell] by {
        let alive = turned_needs[cell];
        assert(needed(turned_needs, cell, alive));
        law_needs_are_told(other, turned_assignment, cell, alive);
        assert forall|name: Seq<char>| #[trigger] turned_assignment@.contains_key(name) implies is_side(name) by {
            let i = gadget_verifier::port_position(other.ports@, name);
            lemma_position_name(other.ports@, name);
            assert(other.ports@[i].name@ == name);
        }
        assert(is_turned(published::anchors_of(turn).west, published::anchors_of(pattern).north));
        lemma_turned_told(other, gadget, turn, pattern, turned_assignment@, assignment@, cell, alive);
        law_needs_are_told(gadget, assignment, turned(cell), alive);
        assert(needed(needs, turned(cell), alive));
        assert(live.contains(turned(cell)) == alive);
    }
    assert(gadget_verifier::is_witness(other, turned_needs, turned_live));
}

proof fn lemma_position_name(ports: Seq<gadget_verifier::Port>, name: Seq<char>)
    ensures
        0 <= gadget_verifier::port_position(ports, name) <= ports.len(),
        gadget_verifier::port_position(ports, name) < ports.len() ==> ports[gadget_verifier::port_position(
            ports,
            name,
        )].name@ == name,
    decreases ports.len(),
{
    if ports.len() > 0 && ports[0].name@ != name {
        lemma_position_name(ports.drop_first(), name);
    }
}

/// A pattern allows the values of an assignment if and only if the pattern with its rows and
/// columns exchanged allows the same values on the exchanged sides.
pub proof fn law_turned_pattern_allows_alike(
    gadget: &GadgetPattern,
    other: &GadgetPattern,
    pattern: &PublishedPattern,
    turn: &PublishedPattern,
    assignment: &PortAssignment,
    turned_assignment: &PortAssignment,
)
    requires
        pattern.scannable(),
        turn.scannable(),
        pattern.width >= 4,
        pattern.height >= 4,
        turn@ == turned_rows(pattern@),
        turn.width == pattern.height,
        turn.height == pattern.width,
        published::is_gadget_of(gadget, pattern, gadget.name@),
        published::is_gadget_of(other, turn, other.name@),
        published::are_anchors(
            pattern@,
            pattern.width as int,
            pattern.height as int,
            published::anchors_of(pattern),
        ),
        assignment.wf(),
        turned_assignment.wf(),
        forall|name: Seq<char>| #[trigger]
            assignment@.contains_key(name) <==> turned_assignment@.contains_key(turned_name(name)),
        forall|name: Seq<char>| #[trigger]
            assignment@.contains_key(name) ==> turned_assignment@[turned_name(name)] == assignment@[name],
        gadget_verifier::needs_of(gadget, assignment) is Ok,
        gadget_verifier::needs_of(other, turned_assignment) is Ok,
    ensures
        gadget_verifier::allows(gadget, gadget_verifier::needs_of(gadget, assignment)->Ok_0)
            == gadget_verifier::allows(other, gadget_verifier::needs_of(other, turned_assignment)->Ok_0),
{
    let a = published::anchors_of(pattern);
    let swap = |c: Option<CellCoord>|
        match c {
            Some(end) => Some(CellCoord { x: end.y, y: end.x }),
            None => None,
        };
    let b = WireAnchors { east: swap(a.south), north: swap(a.west), west: swap(a.north), south: swap(a.east) };
    assert(has_size(pattern@, pattern.width as int, pattern.height as int));
    law_turned_anchors(pattern@, pattern.width as int, pattern.height as int, a, b);
    published::lemma_anchors_unique(turn, b);
    discharge::lemma_port_texts();
    assert forall|name: Seq<char>| turned_name(#[trigger] turned_name(name)) == name by {}
    assert forall|name: Seq<char>| #[trigger] turned_assignment@.contains_key(name) implies assignment@.contains_key(
        turned_name(name),
    ) && turned_assignment@[name] == assignment@[turned_name(name)] by {
        assert(turned_name(turned_name(name)) == name);
        assert(assignment@.contains_key(turned_name(name)));
    }
    assert(pattern@ =~= turned_rows(turn@)) by {
        assert(pattern@[0].len() == pattern.width);
        assert(turn@[0].len() == turn.width);
        assert forall|y: int| 0 <= y < pattern@.len() implies #[trigger] pattern@[y] =~= turned_rows(turn@)[y] by {
            assert(pattern@[y].len() == pattern.width);
        }
    }
    if gadget_verifier::allows(gadget, gadget_verifier::needs_of(gadget, assignment)->Ok_0) {
        lemma_turned_allows(gadget, other, pattern, turn, assignment, turned_assignment);
    }
    if gadget_verifier::allows(other, gadget_verifier::needs_of(other, turned_assignment)->Ok_0) {
        lemma_turned_allows(other, gadget, turn, pattern, turned_assignment, assignment);
    }
}

} // verus!
