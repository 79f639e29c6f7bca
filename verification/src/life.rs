//! The rule by which cells live.

use crate::encoding;
use crate::encoding::Cell;
use vstd::prelude::*;

verus! {

/// The neighbours of a place: those that lie at most one step away on each axis, but not the place.
pub open spec fn beside(x: int, y: int) -> Set<Cell> {
    Set::new(|c: Cell| -1 <= c.0 - x <= 1 && -1 <= c.1 - y <= 1 && c != (x, y))
}

spec fn live_among(live: Set<Cell>, cells: Seq<Cell>) -> nat
    decreases cells.len(),
{
    if cells.len() == 0 {
        0
    } else {
        live_among(live, cells.drop_last()) + encoding::one_if(live.contains(cells.last()))
    }
}

proof fn lemma_live_among(live: Set<Cell>, cells: Seq<Cell>)
    requires
        cells.no_duplicates(),
    ensures
        live.intersect(cells.to_set()).finite(),
        live_among(live, cells) == live.intersect(cells.to_set()).len(),
    decreases cells.len(),
{
    let all = live.intersect(cells.to_set());
    if cells.len() == 0 {
        assert(all =~= Set::empty());
    } else {
        let rest = cells.drop_last();
        let last = cells.last();
        lemma_live_among(live, rest);
        let less = live.intersect(rest.to_set());
        assert forall|c: Cell| cells.contains(c) <==> rest.contains(c) || c == last by {
            if cells.contains(c) && c != last {
                let i = choose|i: int| 0 <= i < cells.len() && cells[i] == c;
                assert(rest[i] == c);
            }
            if rest.contains(c) {
                let i = choose|i: int| 0 <= i < rest.len() && rest[i] == c;
                assert(cells[i] == c);
            }
            assert(cells[cells.len() - 1] == last);
        }
        assert(!rest.contains(last)) by {
            if rest.contains(last) {
                let i = choose|i: int| 0 <= i < rest.len() && rest[i] == last;
                assert(cells[i] == cells[cells.len() - 1]);
            }
        }
        if live.contains(last) {
            assert(all =~= less.insert(last));
        } else {
            assert(all =~= less);
        }
    }
}

spec fn ring(x: int, y: int) -> Seq<Cell> {
    seq![
        (x - 1, y - 1),
        (x, y - 1),
        (x + 1, y - 1),
        (x - 1, y),
        (x + 1, y),
        (x - 1, y + 1),
        (x, y + 1),
        (x + 1, y + 1),
    ]
}

proof fn lemma_ring(live: Set<Cell>, x: int, y: int)
    ensures
        live_among(live, ring(x, y)) == encoding::live_around(live, x, y),
        ring(x, y).no_duplicates(),
        ring(x, y).to_set() == beside(x, y),
{
    let cells = ring(x, y);
    let c7 = cells.drop_last();
    let c6 = c7.drop_last();
    let c5 = c6.drop_last();
    let c4 = c5.drop_last();
    let c3 = c4.drop_last();
    let c2 = c3.drop_last();
    let c1 = c2.drop_last();
    let c0 = c1.drop_last();
    assert(c0.len() == 0);
    assert(live_among(live, c0) == 0);
    assert(live_among(live, c1) == encoding::one_if(live.contains(cells[0])));
    assert(live_among(live, c2) == live_among(live, c1) + encoding::one_if(live.contains(cells[1])));
    assert(live_among(live, c3) == live_among(live, c2) + encoding::one_if(live.contains(cells[2])));
    assert(live_among(live, c4) == live_among(live, c3) + encoding::one_if(live.contains(cells[3])));
    assert(live_among(live, c5) == live_among(live, c4) + encoding::one_if(live.contains(cells[4])));
    assert(live_among(live, c6) == live_among(live, c5) + encoding::one_if(live.contains(cells[5])));
    assert(live_among(live, c7) == live_among(live, c6) + encoding::one_if(live.contains(cells[6])));
    assert(live_among(live, cells) == live_among(live, c7) + encoding::one_if(live.contains(cells[7])));
    assert forall|c: Cell| cells.to_set().contains(c) == beside(x, y).contains(c) by {
        if beside(x, y).contains(c) {
            let i: int = if c.1 == y - 1 {
                c.0 - x + 1
            } else if c.1 == y {
                if c.0 < x {
                    3
                } else {
                    4
                }
            } else {
                c.0 - x + 6
            };
            assert(cells[i] == c);
        }
    }
    assert(cells.to_set() =~= beside(x, y));
}

/// A cell is alive in the next generation if and only if three of its neighbours are alive, or two of
/// them and the cell itself.
pub proof fn law_cells_live_by_the_rule(live: Set<Cell>, x: int, y: int)
    ensures
        live.intersect(beside(x, y)).finite(),
        encoding::next_alive(live, x, y) <==> live.intersect(beside(x, y)).len() == 3 || (live.intersect(
            beside(x, y),
        ).len() == 2 && live.contains((x, y))),
{
    lemma_ring(live, x, y);
    lemma_live_among(live, ring(x, y));
}

/// Live cells that are all moved alike have the next generation moved so too.
pub proof fn law_generations_move(live: Set<Cell>, moved: Set<Cell>, dx: int, dy: int, x: int, y: int)
    requires
        forall|c: Cell| #[trigger] moved.contains(c) <==> live.contains((c.0 - dx, c.1 - dy)),
    ensures
        encoding::next_alive(moved, x + dx, y + dy) == encoding::next_alive(live, x, y),
{
}

} // verus!
