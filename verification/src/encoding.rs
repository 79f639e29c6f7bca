//! The rule of Life, and the clauses that say which patterns a target has as predecessors.

use crate::grid::Grid;
use crate::bits;
use crate::solver;
use vstd::prelude::*;

verus! {

/// The place of a cell: its column and its row.
pub type Cell = (int, int);

/// A cell of a predecessor.
#[derive(Debug, Clone, Copy, PartialEq, Eq, PartialOrd, Ord, Hash, Structural)]
pub struct CellCoord {
    pub x: isize,
    pub y: isize,
}

impl View for CellCoord {
    type V = Cell;

    open spec fn view(&self) -> Cell {
        (self.x as int, self.y as int)
    }
}

impl CellCoord {
    /// The cell in column `x` and row `y`.
    pub fn new(x: isize, y: isize) -> (coord: Self)
        ensures
            coord.x == x,
            coord.y == y,
    {
        Self { x, y }
    }
}

/// One for true, zero for false.
pub open spec fn one_if(b: bool) -> nat {
    if b {
        1
    } else {
        0
    }
}

/// How many of the eight cells around a cell are alive.
pub open spec fn live_around(live: Set<Cell>, x: int, y: int) -> nat {
    one_if(live.contains((x - 1, y - 1))) + one_if(live.contains((x, y - 1))) + one_if(
        live.contains((x + 1, y - 1)),
    ) + one_if(live.contains((x - 1, y))) + one_if(live.contains((x + 1, y))) + one_if(
        live.contains((x - 1, y + 1)),
    ) + one_if(live.contains((x, y + 1))) + one_if(live.contains((x + 1, y + 1)))
}

/// The rule of Life: a cell lives on with two or three live neighbours, and comes to life
/// with three.
pub open spec fn life_rule(alive: bool, neighbours: nat) -> bool {
    neighbours == 3 || (alive && neighbours == 2)
}

/// Whether a cell is alive one generation later.
pub open spec fn next_alive(live: Set<Cell>, x: int, y: int) -> bool {
    life_rule(live.contains((x, y)), live_around(live, x, y))
}

/// A pattern of live cells turns into the target within the target's bounds.
pub open spec fn is_preimage(live: Set<Cell>, rows: Seq<Seq<bool>>) -> bool {
    forall|y: int, x: int|
        0 <= y < rows.len() && 0 <= x < rows[y].len() ==> #[trigger] next_alive(live, x, y) == rows[y][x]
}

/// A cell and the eight around it, in an order that depends on the parity of the place.
pub open spec fn neighborhood(x: int, y: int) -> Seq<Cell> {
    if y % 2 != 0 {
        if x % 2 != 0 {
            seq![
                (x, y),
                (x - 1, y),
                (x - 1, y - 1),
                (x + 1, y),
                (x + 1, y - 1),
                (x - 1, y + 1),
                (x, y + 1),
                (x + 1, y + 1),
                (x, y - 1),
            ]
        } else {
            seq![
                (x, y),
                (x - 1, y),
                (x - 1, y - 1),
                (x + 1, y),
                (x + 1, y - 1),
                (x + 1, y + 1),
                (x, y + 1),
                (x - 1, y + 1),
                (x, y - 1),
            ]
        }
    } else if x % 2 != 0 {
        seq![
            (x, y),
            (x - 1, y + 1),
            (x - 1, y),
            (x + 1, y + 1),
            (x + 1, y),
            (x - 1, y - 1),
            (x, y - 1),
            (x + 1, y - 1),
            (x, y + 1),
        ]
    } else {
        seq![
            (x, y),
            (x - 1, y + 1),
            (x - 1, y),
            (x + 1, y + 1),
            (x + 1, y),
            (x + 1, y - 1),
            (x, y - 1),
            (x - 1, y - 1),
            (x, y + 1),
        ]
    }
}

/// The cells, as places.
pub open spec fn places(cells: Seq<CellCoord>) -> Seq<Cell> {
    Seq::new(cells.len(), |i: int| cells[i]@)
}

/// A cell and the eight around it.
pub(crate) fn life_neighborhood(coord: CellCoord) -> (cells: [CellCoord; 9])
    requires
        isize::MIN < coord.x < isize::MAX,
        isize::MIN < coord.y < isize::MAX,
    ensures
        places(cells@) == neighborhood(coord.x as int, coord.y as int),
{
    let x: isize = coord.x;
    let y: isize = coord.y;
    let left: isize = x - 1;
    let right: isize = x + 1;
    let up: isize = y - 1;
    let down: isize = y + 1;
    let cells: [CellCoord; 9] = if y % 2 != 0 {
        if x % 2 != 0 {
            [
                coord,
                CellCoord::new(left, y),
                CellCoord::new(left, up),
                CellCoord::new(right, y),
                CellCoord::new(right, up),
                CellCoord::new(left, down),
                CellCoord::new(x, down),
                CellCoord::new(right, down),
                CellCoord::new(x, up),
            ]
        } else {
            [
                coord,
                CellCoord::new(left, y),
                CellCoord::new(left, up),
                CellCoord::new(right, y),
                CellCoord::new(right, up),
                CellCoord::new(right, down),
                CellCoord::new(x, down),
                CellCoord::new(left, down),
                CellCoord::new(x, up),
            ]
        }
    } else if x % 2 != 0 {
        [
            coord,
            CellCoord::new(left, down),
            CellCoord::new(left, y),
            CellCoord::new(right, down),
            CellCoord::new(right, y),
            CellCoord::new(left, up),
            CellCoord::new(x, up),
            CellCoord::new(right, up),
            CellCoord::new(x, down),
        ]
    } else {
        [
            coord,
            CellCoord::new(left, down),
            CellCoord::new(left, y),
            CellCoord::new(right, down),
            CellCoord::new(right, y),
            CellCoord::new(right, up),
            CellCoord::new(x, up),
            CellCoord::new(left, up),
            CellCoord::new(x, down),
        ]
    };
    assert(places(cells@) =~= neighborhood(x as int, y as int));
    cells
}

/// The rule of Life.
fn life_next(center_alive: bool, live_neighbors: usize) -> (alive: bool)
    ensures
        alive == life_rule(center_alive, live_neighbors as nat),
{
    live_neighbors == 3 || (center_alive && live_neighbors == 2)
}

/// The rule of Life on the nine values of a neighbourhood, the cell's own first.
pub open spec fn life_of(values: Seq<bool>) -> bool {
    life_rule(
        values[0],
        one_if(values[1]) + one_if(values[2]) + one_if(values[3]) + one_if(values[4]) + one_if(values[5])
            + one_if(values[6]) + one_if(values[7]) + one_if(values[8]),
    )
}

/// The rule does not depend on the order of a neighbourhood.
proof fn lemma_life_of(live: Set<Cell>, x: int, y: int, values: Seq<bool>)
    requires
        values.len() == 9,
        forall|i: int| 0 <= i < 9 ==> #[trigger] values[i] == live.contains(neighborhood(x, y)[i]),
    ensures
        life_of(values) == next_alive(live, x, y),
{
    let cells = neighborhood(x, y);
    assert(values[0] == live.contains(cells[0]));
    assert(values[1] == live.contains(cells[1]));
    assert(values[2] == live.contains(cells[2]));
    assert(values[3] == live.contains(cells[3]));
    assert(values[4] == live.contains(cells[4]));
    assert(values[5] == live.contains(cells[5]));
    assert(values[6] == live.contains(cells[6]));
    assert(values[7] == live.contains(cells[7]));
    assert(values[8] == live.contains(cells[8]));
}

/// The places that decide about a target of the given size.
pub open spec fn in_domain(cell: Cell, width: int, height: int) -> bool {
    width > 0 && height > 0 && -1 <= cell.0 <= width && -1 <= cell.1 <= height
}

/// The number of a place, by columns.
pub open spec fn place_index(cell: Cell, height: int) -> int {
    (cell.0 + 1) * (height + 2) + (cell.1 + 1)
}

/// How many places decide about a target of the given size.
pub open spec fn place_count(width: int, height: int) -> int {
    if width > 0 && height > 0 {
        (width + 2) * (height + 2)
    } else {
        0
    }
}

/// The live cells of a model.
pub open spec fn live_of(model: Seq<bool>, width: int, height: int) -> Set<Cell> {
    Set::new(|cell: Cell| in_domain(cell, width, height) && model[place_index(cell, height)])
}

/// The place with the given number.
pub open spec fn place_at(k: int, height: int) -> Cell {
    (k / (height + 2) - 1, k % (height + 2) - 1)
}

/// The model of a pattern of live cells.
pub open spec fn model_of(live: Set<Cell>, width: int, height: int) -> Seq<bool> {
    Seq::new(place_count(width, height) as nat, |k: int| live.contains(place_at(k, height)))
}

/// Places are numbered without gaps.
pub proof fn lemma_place_index(cell: Cell, width: int, height: int)
    requires
        in_domain(cell, width, height),
    ensures
        0 <= place_index(cell, height) < place_count(width, height),
        place_at(place_index(cell, height), height) == cell,
{
    let a = cell.0 + 1;
    let b = cell.1 + 1;
    let n = height + 2;
    assert(0 <= a * n + b < (width + 2) * n) by (nonlinear_arith)
        requires
            0 <= a <= width + 1,
            0 <= b < n,
    ;
    vstd::arithmetic::div_mod::lemma_fundamental_div_mod_converse(a * n + b, n, a, b);
}

/// Every number below the count is that of a place.
pub proof fn lemma_place_at(k: int, width: int, height: int)
    requires
        0 <= k < place_count(width, height),
    ensures
        in_domain(place_at(k, height), width, height),
        place_index(place_at(k, height), height) == k,
{
    let n = height + 2;
    let a = k / n;
    let b = k % n;
    vstd::arithmetic::div_mod::lemma_fundamental_div_mod(k, n);
    assert(n * a == a * n) by (nonlinear_arith);
    assert(0 <= b < n);
    assert(0 <= a < width + 2) by (nonlinear_arith)
        requires
            0 <= k < (width + 2) * n,
            k == a * n + b,
            0 <= b < n,
            n > 0,
    ;
}

/// Within the places that decide, a pattern and its model agree.
pub proof fn lemma_model_of(live: Set<Cell>, width: int, height: int, cell: Cell)
    requires
        in_domain(cell, width, height),
    ensures
        live_of(model_of(live, width, height), width, height).contains(cell) == live.contains(cell),
{
    lemma_place_index(cell, width, height);
}

/// What happens within the bounds depends on the places that decide only.
pub proof fn lemma_preimage_local(a: Set<Cell>, b: Set<Cell>, rows: Seq<Seq<bool>>, width: int, height: int)
    requires
        rows.len() == height,
        forall|y: int| 0 <= y < rows.len() ==> (#[trigger] rows[y]).len() == width,
        forall|cell: Cell| in_domain(cell, width, height) ==> #[trigger] a.contains(cell) == b.contains(cell),
    ensures
        is_preimage(a, rows) == is_preimage(b, rows),
{
    assert forall|y: int, x: int| 0 <= y < rows.len() && 0 <= x < rows[y].len() implies #[trigger] next_alive(
        a,
        x,
        y,
    ) == next_alive(b, x, y) by {
        assert(rows[y].len() == width);
    }
    if is_preimage(a, rows) {
        assert forall|y: int, x: int|
            0 <= y < rows.len() && 0 <= x < rows[y].len() implies #[trigger] next_alive(b, x, y) == rows[y][x] by {
            assert(next_alive(a, x, y) == rows[y][x]);
        }
    }
    if is_preimage(b, rows) {
        assert forall|y: int, x: int|
            0 <= y < rows.len() && 0 <= x < rows[y].len() implies #[trigger] next_alive(a, x, y) == rows[y][x] by {
            assert(next_alive(b, x, y) == rows[y][x]);
        }
    }
}

/// The number of a place's variable, counted from one.
pub(crate) fn variable_number(coord: CellCoord, width: usize, height: usize) -> (number: Option<i32>)
    requires
        place_count(width as int, height as int) < i32::MAX,
    ensures
        match number {
            Some(n) => in_domain(coord@, width as int, height as int) && n == place_index(
                coord@,
                height as int,
            ) + 1,
            None => !in_domain(coord@, width as int, height as int),
        },
{
    if width == 0 || height == 0 || coord.x < -1 || coord.y < -1 {
        return None;
    }
    proof {
        let w = width as int;
        let h = height as int;
        assert(w + 2 <= (w + 2) * (h + 2) && h + 2 <= (w + 2) * (h + 2)) by (nonlinear_arith)
            requires
                w > 0,
                h > 0,
        ;
    }
    let a: usize = if coord.x < 0 {
        0
    } else if coord.x as usize > width {
        return None;
    } else {
        coord.x as usize + 1
    };
    let b: usize = if coord.y < 0 {
        0
    } else if coord.y as usize > height {
        return None;
    } else {
        coord.y as usize + 1
    };
    proof {
        lemma_place_index(coord@, width as int, height as int);
        assert(a * (height + 2) <= place_index(coord@, height as int));
        assert(0 <= a * (height + 2)) by (nonlinear_arith);
    }
    let column: i64 = (a as i64) * (height as i64 + 2);
    Some((column + b as i64 + 1) as i32)
}

/// The values of the given variables in a model.
pub open spec fn values_at(model: Seq<bool>, vars: Seq<i32>) -> Seq<bool> {
    Seq::new(vars.len(), |i: int| model[vars[i] - 1])
}

/// The first nine binary digits of a number.
spec fn nine_digits(mask: nat) -> Seq<bool> {
    Seq::new(9, |i: int| bits::mask_bit(mask, i as nat))
}

fn one(b: bool) -> (n: usize)
    ensures
        n == one_if(b),
{
    if b {
        1
    } else {
        0
    }
}

/// The first nine binary digits of a number.
fn digits_of(mask: usize) -> (digits: Vec<bool>)
    ensures
        digits@ == nine_digits(mask as nat),
{
    let mut digits: Vec<bool> = Vec::new();
    let mut rest: usize = mask;
    let mut i: usize = 0;
    while i < 9
        invariant
            i <= 9,
            digits@.len() == i,
            rest == bits::shifted(mask as nat, i as nat),
            forall|k: int| 0 <= k < i ==> #[trigger] digits@[k] == bits::mask_bit(mask as nat, k as nat),
        decreases 9 - i,
    {
        digits.push(rest % 2 == 1);
        rest = rest / 2;
        i += 1;
    }
    assert(digits@ =~= nine_digits(mask as nat));
    digits
}

/// The clause that rules out that the variables have the given values.
fn excluding_clause(vars: &Vec<i32>, values: &Vec<bool>, Ghost(n): Ghost<nat>) -> (clause: Vec<i32>)
    requires
        vars@.len() == values@.len(),
        forall|i: int| 0 <= i < vars@.len() ==> 0 < #[trigger] vars@[i] && vars@[i] <= n,
    ensures
        solver::clause_in_range(clause@, n),
        forall|model: Seq<bool>| #[trigger] solver::clause_holds(model, clause@) <==> values_at(model, vars@) != values@,
{
    let mut clause: Vec<i32> = Vec::new();
    let mut i: usize = 0;
    while i < vars.len()
        invariant
            i <= vars@.len(),
            vars@.len() == values@.len(),
            forall|k: int| 0 <= k < vars@.len() ==> 0 < #[trigger] vars@[k] && vars@[k] <= n,
            clause@.len() == i,
            forall|k: int|
                0 <= k < i ==> #[trigger] clause@[k] == (if values@[k] {
                    (-vars@[k]) as i32
                } else {
                    vars@[k]
                }),
        decreases vars.len() - i,
    {
        let var: i32 = vars[i];
        assert(vars@[i as int] > 0);
        if values[i] {
            clause.push(-var);
        } else {
            clause.push(var);
        }
        i += 1;
    }
    proof {
        assert forall|k: int| 0 <= k < clause@.len() implies solver::literal_in_range(#[trigger] clause@[k], n) by {
            assert(vars@[k] > 0);
        }
        assert forall|model: Seq<bool>| #[trigger] solver::clause_holds(model, clause@) <==> values_at(model, vars@)
            != values@ by {
            let seen = values_at(model, vars@);
            if solver::clause_holds(model, clause@) {
                let k = choose|k: int| 0 <= k < clause@.len() && solver::literal_holds(model, #[trigger] clause@[k]);
                assert(vars@[k] > 0);
                assert(seen[k] != values@[k]);
            }
            if seen != values@ {
                if forall|k: int| 0 <= k < seen.len() ==> seen[k] == values@[k] {
                    assert(seen =~= values@);
                }
                let k = choose|k: int| 0 <= k < seen.len() && seen[k] != values@[k];
                assert(vars@[k] > 0);
                assert(solver::literal_holds(model, clause@[k]));
            }
        }
    }
    clause
}

/// The values are none of the first `k` rows of digits that break the rule.
#[verifier::opaque]
spec fn avoids(values: Seq<bool>, target: bool, k: nat) -> bool {
    forall|c: nat| c < k && life_of(#[trigger] nine_digits(c)) != target ==> values != nine_digits(c)
}

proof fn lemma_avoids_step(values: Seq<bool>, target: bool, k: nat)
    ensures
        avoids(values, target, 0),
        avoids(values, target, k + 1) <==> avoids(values, target, k) && (life_of(nine_digits(k)) != target
            ==> values != nine_digits(k)),
{
    reveal(avoids);
}

proof fn lemma_avoids_all(values: Seq<bool>, target: bool)
    requires
        values.len() == 9,
    ensures
        avoids(values, target, 512) <==> life_of(values) == target,
{
    reveal(avoids);
    let c = bits::number_of(values);
    bits::lemma_number_of(values);
    assert(bits::two_to(9) == 512) by {
        reveal_with_fuel(bits::two_to, 10);
    }
    assert(nine_digits(c) =~= values);
}

proof fn lemma_one_more_clause(clauses: Seq<Seq<i32>>, added: Seq<i32>, model: Seq<bool>)
    ensures
        solver::satisfies(model, clauses.push(added)) <==> solver::satisfies(model, clauses) && solver::clause_holds(model, added),
{
    let after = clauses.push(added);
    if solver::satisfies(model, after) {
        assert(solver::clause_holds(model, after[clauses.len() as int]));
        assert forall|i: int| 0 <= i < clauses.len() implies solver::clause_holds(model, #[trigger] clauses[i]) by {
            assert(after[i] == clauses[i]);
        }
    }
}

/// Adds the clauses that say what a cell turns into.
fn push_cell_clauses(clauses: &mut Vec<Vec<i32>>, vars: &Vec<i32>, target: bool, Ghost(n): Ghost<nat>)
    requires
        vars@.len() == 9,
        forall|i: int| 0 <= i < vars@.len() ==> 0 < #[trigger] vars@[i] && vars@[i] <= n,
        solver::clauses_in_range(solver::clause_seqs(old(clauses)@), n),
    ensures
        solver::clauses_in_range(solver::clause_seqs(final(clauses)@), n),
        forall|model: Seq<bool>| #[trigger]
            solver::satisfies(model, solver::clause_seqs(final(clauses)@)) <==> solver::satisfies(model, solver::clause_seqs(old(clauses)@))
                && life_of(values_at(model, vars@)) == target,
{
    let ghost start = solver::clause_seqs(clauses@);
    let mut mask: usize = 0;
    proof {
        assert forall|model: Seq<bool>| #[trigger]
            solver::satisfies(model, start) <==> solver::satisfies(model, start) && avoids(values_at(model, vars@), target, 0) by {
            lemma_avoids_step(values_at(model, vars@), target, 0);
        }
    }
    while mask < 512
        invariant
            mask <= 512,
            start == solver::clause_seqs(old(clauses)@),
            vars@.len() == 9,
            forall|i: int| 0 <= i < vars@.len() ==> 0 < #[trigger] vars@[i] && vars@[i] <= n,
            solver::clauses_in_range(solver::clause_seqs(clauses@), n),
            forall|model: Seq<bool>| #[trigger]
                solver::satisfies(model, solver::clause_seqs(clauses@)) <==> solver::satisfies(model, start) && avoids(
                    values_at(model, vars@),
                    target,
                    mask as nat,
                ),
        decreases 512 - mask,
    {
        let digits: Vec<bool> = digits_of(mask);
        let center_alive: bool = digits[0];
        let live_neighbors: usize = one(digits[1]) + one(digits[2]) + one(digits[3]) + one(digits[4]) + one(
            digits[5],
        ) + one(digits[6]) + one(digits[7]) + one(digits[8]);
        let ghost before = solver::clause_seqs(clauses@);
        assert(life_of(nine_digits(mask as nat)) == life_rule(center_alive, live_neighbors as nat));
        if life_next(center_alive, live_neighbors) != target {
            let clause: Vec<i32> = excluding_clause(vars, &digits, Ghost(n));
            let ghost added = clause@;
            clauses.push(clause);
            proof {
                let after = solver::clause_seqs(clauses@);
                assert(after =~= before.push(added));
                assert forall|i: int| 0 <= i < after.len() implies solver::clause_in_range(#[trigger] after[i], n) by {
                    if i < before.len() {
                        assert(after[i] == before[i]);
                    }
                }
                assert forall|model: Seq<bool>| #[trigger]
                    solver::satisfies(model, after) <==> solver::satisfies(model, start) && avoids(
                        values_at(model, vars@),
                        target,
                        (mask + 1) as nat,
                    ) by {
                    lemma_one_more_clause(before, added, model);
                    lemma_avoids_step(values_at(model, vars@), target, mask as nat);
                    assert(solver::clause_holds(model, added) <==> values_at(model, vars@) != digits@);
                    assert(solver::satisfies(model, before) <==> solver::satisfies(model, start) && avoids(
                        values_at(model, vars@),
                        target,
                        mask as nat,
                    ));
                }
            }
        } else {
            proof {
                assert forall|model: Seq<bool>| #[trigger]
                    solver::satisfies(model, before) <==> solver::satisfies(model, start) && avoids(
                        values_at(model, vars@),
                        target,
                        (mask + 1) as nat,
                    ) by {
                    lemma_avoids_step(values_at(model, vars@), target, mask as nat);
                }
            }
        }
        mask += 1;
    }
    proof {
        assert forall|model: Seq<bool>| #[trigger]
            solver::satisfies(model, solver::clause_seqs(clauses@)) <==> solver::satisfies(model, start) && life_of(
                values_at(model, vars@),
            ) == target by {
            lemma_avoids_all(values_at(model, vars@), target);
        }
    }
}

/// The cells of the first rows, and the first cells of the row that follows, turn into
/// the target.
spec fn preimage_up_to(live: Set<Cell>, rows: Seq<Seq<bool>>, y: int, x: int) -> bool {
    forall|b: int, a: int|
        0 <= b < rows.len() && 0 <= a < rows[b].len() && (b < y || (b == y && a < x)) ==> #[trigger] next_alive(
            live,
            a,
            b,
        ) == rows[b][a]
}

/// The clauses whose models are the predecessors of a target.
pub fn predecessor_clauses(target: &Grid) -> (clauses: Vec<Vec<i32>>)
    requires
        target.wf(),
        place_count(target.width as int, target.height as int) < i32::MAX,
    ensures
        solver::clauses_in_range(
            solver::clause_seqs(clauses@),
            place_count(target.width as int, target.height as int) as nat,
        ),
        forall|model: Seq<bool>| #[trigger]
            solver::satisfies(model, solver::clause_seqs(clauses@)) <==> is_preimage(
                live_of(model, target.width as int, target.height as int),
                target@,
            ),
{
    let ghost rows = target@;
    let width: usize = target.width;
    let height: usize = target.height;
    let ghost w = width as int;
    let ghost h = height as int;
    let ghost n = place_count(w, h) as nat;
    let mut clauses: Vec<Vec<i32>> = Vec::new();
    let mut y: usize = 0;
    while y < height
        invariant
            y <= height,
            rows == target@,
            target.wf(),
            width == target.width,
            height == target.height,
            w == width,
            h == height,
            n == place_count(w, h),
            n < i32::MAX,
            solver::clauses_in_range(solver::clause_seqs(clauses@), n),
            forall|model: Seq<bool>| #[trigger]
                solver::satisfies(model, solver::clause_seqs(clauses@)) <==> preimage_up_to(
                    live_of(model, w, h),
                    rows,
                    y as int,
                    0,
                ),
        decreases height - y,
    {
        let mut x: usize = 0;
        while x < width
            invariant
                x <= width,
                y < height,
                rows == target@,
                target.wf(),
                width == target.width,
                height == target.height,
                w == width,
                h == height,
                n == place_count(w, h),
                n < i32::MAX,
                solver::clauses_in_range(solver::clause_seqs(clauses@), n),
                forall|model: Seq<bool>| #[trigger]
                    solver::satisfies(model, solver::clause_seqs(clauses@)) <==> preimage_up_to(
                        live_of(model, w, h),
                        rows,
                        y as int,
                        x as int,
                    ),
            decreases width - x,
        {
            proof {
                assert(w + 2 <= (w + 2) * (h + 2) && h + 2 <= (w + 2) * (h + 2)) by (nonlinear_arith)
                    requires
                        w > 0,
                        h > 0,
                ;
            }
            let cells: [CellCoord; 9] = life_neighborhood(CellCoord::new(x as isize, y as isize));
            let mut vars: Vec<i32> = Vec::new();
            let mut i: usize = 0;
            while i < 9
                invariant
                    i <= 9,
                    x < width,
                    y < height,
                    w == width,
                    h == height,
                    n == place_count(w, h),
                    n < i32::MAX,
                    cells@.len() == 9,
                    places(cells@) == neighborhood(x as int, y as int),
                    vars@.len() == i,
                    forall|k: int|
                        0 <= k < i ==> 0 < #[trigger] vars@[k] && vars@[k] <= n && vars@[k] == place_index(
                            neighborhood(x as int, y as int)[k],
                            h,
                        ) + 1,
                decreases 9 - i,
            {
                assert(places(cells@)[i as int] == cells@[i as int]@);
                assert(in_domain(neighborhood(x as int, y as int)[i as int], w, h));
                match variable_number(cells[i], width, height) {
                    Some(number) => {
                        proof {
                            lemma_place_index(cells@[i as int]@, w, h);
                        }
                        vars.push(number);
                    },
                    None => {},
                }
                i += 1;
            }
            let ghost before = solver::clause_seqs(clauses@);
            let alive: bool = target.get(y, x);
            push_cell_clauses(&mut clauses, &vars, alive, Ghost(n));
            proof {
                assert forall|model: Seq<bool>| #[trigger]
                    solver::satisfies(model, solver::clause_seqs(clauses@)) <==> preimage_up_to(
                        live_of(model, w, h),
                        rows,
                        y as int,
                        x + 1,
                    ) by {
                    let live = live_of(model, w, h);
                    let values = values_at(model, vars@);
                    assert(solver::satisfies(model, before) <==> preimage_up_to(live, rows, y as int, x as int));
                    assert forall|k: int| 0 <= k < 9 implies #[trigger] values[k] == live.contains(
                        neighborhood(x as int, y as int)[k],
                    ) by {
                        assert(vars@[k] > 0);
                        assert(in_domain(neighborhood(x as int, y as int)[k], w, h));
                    }
                    lemma_life_of(live, x as int, y as int, values);
                    assert(rows[y as int].len() == w);
                    if preimage_up_to(live, rows, y as int, x + 1) {
                        assert(next_alive(live, x as int, y as int) == rows[y as int][x as int]);
                    }
                }
            }
            x += 1;
        }
        proof {
            assert forall|model: Seq<bool>| #[trigger]
                solver::satisfies(model, solver::clause_seqs(clauses@)) <==> preimage_up_to(
                    live_of(model, w, h),
                    rows,
                    y + 1,
                    0,
                ) by {
                let live = live_of(model, w, h);
                assert(rows[y as int].len() == w);
                if preimage_up_to(live, rows, y as int, x as int) {
                    assert forall|b: int, a: int|
                        0 <= b < rows.len() && 0 <= a < rows[b].len() && (b < y + 1 || (b == y + 1 && a < 0)) implies
                        #[trigger] next_alive(live, a, b) == rows[b][a] by {
                        assert(rows[b].len() == w);
                    }
                }
            }
        }
        y += 1;
    }
    clauses
}

} // verus!
