//! Finite grids of cells, and their rendering as text.

use crate::scan::{drop_trailing_white, split_lines};
use crate::settings::BoundaryCondition;
use crate::text::chars_of;
use crate::scan;
use vstd::prelude::*;

verus! {

/// The rows of cells.
pub open spec fn cell_rows(cells: Seq<Vec<bool>>) -> Seq<Seq<bool>> {
    Seq::new(cells.len(), |y: int| cells[y]@)
}

/// All rows have the given length.
pub open spec fn rectangular(rows: Seq<Seq<bool>>, width: nat) -> bool {
    forall|y: int| 0 <= y < rows.len() ==> (#[trigger] rows[y]).len() == width
}

/// A grid of cells, each alive or dead.
#[derive(Debug, Clone, PartialEq, Eq)]
pub struct Grid {
    pub width: usize,
    pub height: usize,
    pub cells: Vec<Vec<bool>>,
    pub boundary: BoundaryCondition,
}

impl View for Grid {
    type V = Seq<Seq<bool>>;

    open spec fn view(&self) -> Seq<Seq<bool>> {
        cell_rows(self.cells@)
    }
}

/// Why cells or a text make no grid.
#[derive(Debug, Clone, Copy, PartialEq, Eq, Structural)]
pub enum GridError {
    /// There are no cells.
    Empty,
    /// The rows differ in length.
    Ragged,
    /// A character stands for no cell.
    UnknownCell,
}

impl GridError {
    /// The message of the error.
    pub open spec fn message(self) -> Seq<char> {
        match self {
            GridError::Empty => "Grid cannot be empty"@,
            GridError::Ragged => "Grid rows have inconsistent lengths"@,
            GridError::UnknownCell => "Grid text holds an unknown cell character"@,
        }
    }

    /// The message of the error.
    pub fn to_string(&self) -> (message: String)
        ensures
            message@ == self.message(),
    {
        match self {
            GridError::Empty => "Grid cannot be empty".to_owned(),
            GridError::Ragged => "Grid rows have inconsistent lengths".to_owned(),
            GridError::UnknownCell => "Grid text holds an unknown cell character".to_owned(),
        }
    }
}

/// How many of the cells are alive.
pub open spec fn alive_in_row(row: Seq<bool>) -> nat
    decreases row.len(),
{
    if row.len() == 0 {
        0
    } else {
        alive_in_row(row.drop_last()) + (if row.last() {
            1nat
        } else {
            0
        })
    }
}

/// How many of the cells are alive.
pub open spec fn alive_in_rows(rows: Seq<Seq<bool>>) -> nat
    decreases rows.len(),
{
    if rows.len() == 0 {
        0
    } else {
        alive_in_rows(rows.drop_last()) + alive_in_row(rows.last())
    }
}

/// The grid with these cells, or what is wrong with them.
pub open spec fn grid_of(rows: Seq<Seq<bool>>) -> Result<Seq<Seq<bool>>, GridError> {
    if rows.len() == 0 || rows[0].len() == 0 {
        Err(GridError::Empty)
    } else if !rectangular(rows, rows[0].len()) {
        Err(GridError::Ragged)
    } else {
        Ok(rows)
    }
}

impl Grid {
    /// The grid's validity: its size is that of its cells.
    pub open spec fn wf(&self) -> bool {
        &&& self.cells@.len() == self.height
        &&& rectangular(self@, self.width as nat)
    }

    /// A grid of dead cells.
    pub fn new(width: usize, height: usize, boundary: BoundaryCondition) -> (grid: Self)
        ensures
            grid.wf(),
            grid.width == width,
            grid.height == height,
            grid.boundary == boundary,
            forall|y: int, x: int| 0 <= y < height && 0 <= x < width ==> !#[trigger] grid@[y][x],
    {
        let mut cells: Vec<Vec<bool>> = Vec::new();
        let mut y: usize = 0;
        while y < height
            invariant
                y <= height,
                cells@.len() == y,
                forall|k: int| 0 <= k < y ==> (#[trigger] cells@[k])@.len() == width,
                forall|k: int, x: int| 0 <= k < y && 0 <= x < width ==> !#[trigger] cells@[k]@[x],
            decreases height - y,
        {
            let mut row: Vec<bool> = Vec::new();
            let mut x: usize = 0;
            while x < width
                invariant
                    x <= width,
                    row@.len() == x,
                    forall|k: int| 0 <= k < x ==> !#[trigger] row@[k],
                decreases width - x,
            {
                row.push(false);
                x += 1;
            }
            cells.push(row);
            y += 1;
        }
        Grid { width, height, cells, boundary }
    }

    /// The grid with the given rows of cells.
    pub fn from_cells(cells: Vec<Vec<bool>>, boundary: BoundaryCondition) -> (result: Result<Self, GridError>)
        ensures
            match grid_of(cell_rows(cells@)) {
                Ok(rows) => result matches Ok(grid) && grid.wf() && grid@ == rows && grid.height == rows.len()
                    && grid.width == rows[0].len() && grid.boundary == boundary,
                Err(failure) => result matches Err(error) && error == failure,
            },
    {
        let ghost rows = cell_rows(cells@);
        if cells.len() == 0 || cells[0].len() == 0 {
            return Err(GridError::Empty);
        }
        let width: usize = cells[0].len();
        let height: usize = cells.len();
        let mut y: usize = 0;
        while y < cells.len()
            invariant
                y <= cells@.len(),
                rows == cell_rows(cells@),
                rows.len() > 0,
                width > 0,
                rows[0].len() == width,
                forall|k: int| 0 <= k < y ==> (#[trigger] rows[k]).len() == width,
            decreases cells.len() - y,
        {
            assert(rows[y as int] == cells@[y as int]@);
            if cells[y].len() != width {
                return Err(GridError::Ragged);
            }
            y += 1;
        }
        Ok(Grid { width, height, cells, boundary })
    }

    /// Whether the cell in row `y` and column `x` is alive.
    pub fn get(&self, y: usize, x: usize) -> (alive: bool)
        requires
            self.wf(),
            y < self.height,
            x < self.width,
        ensures
            alive == self@[y as int][x as int],
    {
        assert(self@[y as int] == self.cells@[y as int]@);
        self.cells[y][x]
    }

    /// Brings the cell in row `y` and column `x` to life, or kills it.
    pub fn set(&mut self, y: usize, x: usize, alive: bool)
        requires
            old(self).wf(),
            y < old(self).height,
            x < old(self).width,
        ensures
            final(self).wf(),
            final(self)@ == old(self)@.update(y as int, old(self)@[y as int].update(x as int, alive)),
            final(self).width == old(self).width,
            final(self).height == old(self).height,
            final(self).boundary == old(self).boundary,
    {
        let ghost before = self@;
        assert(before[y as int] == self.cells@[y as int]@);
        self.cells[y].set(x, alive);
        assert(self@ =~= before.update(y as int, before[y as int].update(x as int, alive)));
    }

    /// How many cells are alive.
    pub fn living_count(&self) -> (count: usize)
        requires
            self.wf(),
            self.width * self.height <= usize::MAX,
        ensures
            count == alive_in_rows(self@),
    {
        let ghost rows = self@;
        let mut count: usize = 0;
        let mut y: usize = 0;
        assert(rows.take(0) =~= Seq::<Seq<bool>>::empty());
        while y < self.cells.len()
            invariant
                y <= self.cells@.len(),
                self.wf(),
                rows == self@,
                self.width * self.height <= usize::MAX,
                count == alive_in_rows(rows.take(y as int)),
                count <= self.width * y,
            decreases self.cells.len() - y,
        {
            let row: &Vec<bool> = &self.cells[y];
            let ghost start = count;
            let mut x: usize = 0;
            assert(rows[y as int] == row@);
            assert(row@.take(0) =~= Seq::<bool>::empty());
            while x < row.len()
                invariant
                    x <= row@.len(),
                    row@.len() == self.width,
                    y < self.height,
                    self.width * self.height <= usize::MAX,
                    start <= self.width * y,
                    count == start + alive_in_row(row@.take(x as int)),
                    count <= start + x,
                decreases row.len() - x,
            {
                proof {
                    assert(row@.take(x + 1).drop_last() =~= row@.take(x as int));
                    assert(row@.take(x + 1).last() == row@[x as int]);
                    assert(self.width * y + self.width <= self.width * self.height) by (nonlinear_arith)
                        requires
                            y < self.height,
                    ;
                }
                if row[x] {
                    count += 1;
                }
                x += 1;
            }
            proof {
                assert(row@.take(x as int) =~= row@);
                assert(rows.take(y + 1).drop_last() =~= rows.take(y as int));
                assert(rows.take(y + 1).last() == row@);
                assert(self.width * y + self.width == self.width * (y + 1)) by (nonlinear_arith);
            }
            y += 1;
        }
        assert(rows.take(y as int) =~= rows);
        count
    }
}

/// The character that stands for a cell.
pub open spec fn cell_char(alive: bool) -> char {
    if alive {
        '1'
    } else {
        '0'
    }
}

/// The characters that stand for a row of cells.
pub open spec fn row_chars(row: Seq<bool>) -> Seq<char> {
    Seq::new(row.len(), |x: int| cell_char(row[x]))
}

/// The rows of a grid as text, each with a line end.
pub open spec fn grid_text(rows: Seq<Seq<bool>>) -> Seq<char>
    decreases rows.len(),
{
    if rows.len() == 0 {
        Seq::empty()
    } else {
        (grid_text(rows.drop_last()) + row_chars(rows.last())).push('\n')
    }
}

/// The grid as text: one line to a row, `1` for a live cell and `0` for a dead one.
pub fn grid_to_string(grid: &Grid) -> (text: String)
    ensures
        text@ == grid_text(grid@),
{
    let ghost rows = grid@;
    let mut out: String = String::new();
    let mut y: usize = 0;
    assert(rows.take(0) =~= Seq::<Seq<bool>>::empty());
    while y < grid.cells.len()
        invariant
            y <= grid.cells@.len(),
            rows == grid@,
            out@ == grid_text(rows.take(y as int)),
        decreases grid.cells.len() - y,
    {
        let row: &Vec<bool> = &grid.cells[y];
        let ghost start = out@;
        let ghost chars = row_chars(row@);
        let mut x: usize = 0;
        assert(out@ =~= start + chars.take(0));
        while x < row.len()
            invariant
                x <= row@.len(),
                chars == row_chars(row@),
                out@ == start + chars.take(x as int),
            decreases row.len() - x,
        {
            if row[x] {
                out.push('1');
            } else {
                out.push('0');
            }
            assert(out@ =~= start + chars.take(x + 1));
            x += 1;
        }
        out.push('\n');
        proof {
            assert(chars.take(x as int) =~= chars);
            assert(rows.take(y + 1).drop_last() =~= rows.take(y as int));
            assert(rows.take(y + 1).last() == row@);
        }
        y += 1;
    }
    assert(rows.take(y as int) =~= rows);
    out
}

/// What a line of text denotes as a row of cells.
pub open spec fn row_of_line(line: Seq<char>) -> Option<Seq<bool>> {
    if forall|x: int| 0 <= x < line.len() ==> #[trigger] line[x] == '0' || line[x] == '1' {
        Some(Seq::new(line.len(), |x: int| line[x] == '1'))
    } else {
        None
    }
}

/// What the first `k` lines denote as rows of cells; white space at line ends and blank
/// lines are skipped.
pub open spec fn rows_of_lines(text: Seq<Seq<char>>, k: nat) -> Option<Seq<Seq<bool>>>
    decreases k,
{
    if k == 0 {
        Some(Seq::empty())
    } else {
        let line = scan::trim_end(text[k - 1]);
        match rows_of_lines(text, (k - 1) as nat) {
            None => None,
            Some(earlier) => if line.len() == 0 {
                Some(earlier)
            } else {
                match row_of_line(line) {
                    None => None,
                    Some(row) => Some(earlier.push(row)),
                }
            },
        }
    }
}

/// What a text denotes as a grid.
pub open spec fn grid_of_text(text: Seq<char>) -> Result<Seq<Seq<bool>>, GridError> {
    match rows_of_lines(scan::lines(text), scan::lines(text).len()) {
        None => Err(GridError::UnknownCell),
        Some(rows) => grid_of(rows),
    }
}

proof fn lemma_rows_fail(text: Seq<Seq<char>>, j: nat, k: nat)
    requires
        j <= k,
        rows_of_lines(text, j) is None,
    ensures
        rows_of_lines(text, k) is None,
    decreases k,
{
    if j < k {
        lemma_rows_fail(text, j, (k - 1) as nat);
    }
}

/// The grid that a text denotes.
pub fn parse_grid_from_string(text: &str, boundary: BoundaryCondition) -> (result: Result<Grid, GridError>)
    ensures
        match grid_of_text(text@) {
            Ok(rows) => result matches Ok(grid) && grid.wf() && grid@ == rows && grid.height == rows.len()
                && grid.width == rows[0].len() && grid.boundary == boundary,
            Err(failure) => result matches Err(error) && error == failure,
        },
{
    let mut text_lines: Vec<Vec<char>> = split_lines(&chars_of(text));
    let ghost all = scan::rows_of(text_lines@);
    let mut cells: Vec<Vec<bool>> = Vec::new();
    let n: usize = text_lines.len();
    let mut k: usize = 0;
    assert(cell_rows(cells@) =~= Seq::<Seq<bool>>::empty());
    while k < n
        invariant
            k <= n,
            n == text_lines@.len(),
            n == all.len(),
            all == scan::lines(text@),
            forall|i: int| k <= i < n ==> (#[trigger] text_lines@[i])@ == all[i],
            rows_of_lines(all, k as nat) == Some(cell_rows(cells@)),
        decreases n - k,
    {
        let mut line: Vec<char> = Vec::new();
        std::mem::swap(&mut line, &mut text_lines[k]);
        drop_trailing_white(&mut line);
        if line.len() > 0 {
            let mut row: Vec<bool> = Vec::new();
            let mut x: usize = 0;
            while x < line.len()
                invariant
                    x <= line@.len(),
                    k < n,
                    n == all.len(),
                    all == scan::lines(text@),
                    line@ == scan::trim_end(all[k as int]),
                    line@.len() > 0,
                    row@.len() == x,
                    forall|i: int| 0 <= i < x ==> line@[i] == '0' || line@[i] == '1',
                    forall|i: int| 0 <= i < x ==> #[trigger] row@[i] == (line@[i] == '1'),
                decreases line.len() - x,
            {
                let c: char = line[x];
                if c != '0' && c != '1' {
                    proof {
                        assert(row_of_line(line@) is None);
                        lemma_rows_fail(all, (k + 1) as nat, n as nat);
                    }
                    return Err(GridError::UnknownCell);
                }
                row.push(c == '1');
                x += 1;
            }
            let ghost before = cells@;
            assert(row@ =~= Seq::new(line@.len(), |i: int| line@[i] == '1'));
            cells.push(row);
            assert(cell_rows(cells@) =~= cell_rows(before).push(row@));
        }
        k += 1;
    }
    Grid::from_cells(cells, boundary)
}

proof fn lemma_scan_row(text: Seq<char>, row: Seq<bool>, x: nat)
    requires
        x <= row.len(),
        crate::scan::line_scan(text).1.len() == 0,
    ensures
        crate::scan::line_scan(text + row_chars(row).take(x as int)) == (
            crate::scan::line_scan(text).0,
            row_chars(row).take(x as int),
        ),
    decreases x,
{
    let chars = row_chars(row);
    if x == 0 {
        assert(text + chars.take(0) =~= text);
        assert(chars.take(0) =~= crate::scan::line_scan(text).1);
    } else {
        lemma_scan_row(text, row, (x - 1) as nat);
        let longer = text + chars.take(x as int);
        assert(longer.drop_last() =~= text + chars.take(x - 1));
        assert(longer.last() == chars[x - 1]);
        assert(chars.take(x as int) =~= chars.take(x - 1).push(chars[x - 1]));
    }
}

proof fn lemma_grid_text_lines(rows: Seq<Seq<bool>>)
    ensures
        crate::scan::line_scan(grid_text(rows)) == (
            Seq::new(rows.len(), |y: int| row_chars(rows[y])),
            Seq::<char>::empty(),
        ),
    decreases rows.len(),
{
    let want = Seq::new(rows.len(), |y: int| row_chars(rows[y]));
    if rows.len() == 0 {
        assert(want =~= Seq::<Seq<char>>::empty());
    } else {
        let rest = rows.drop_last();
        lemma_grid_text_lines(rest);
        let row = rows.last();
        lemma_scan_row(grid_text(rest), row, row.len());
        assert(row_chars(row).take(row.len() as int) =~= row_chars(row));
        let body = grid_text(rest) + row_chars(row);
        assert(grid_text(rows).drop_last() =~= body);
        assert(grid_text(rows).last() == '\n');
        assert(want =~= Seq::new(rest.len(), |y: int| row_chars(rest[y])).push(row_chars(row)));
    }
}

proof fn lemma_read_back(rows: Seq<Seq<bool>>, all: Seq<Seq<char>>, k: nat)
    requires
        k <= rows.len(),
        k <= all.len(),
        forall|y: int| 0 <= y < rows.len() ==> (#[trigger] rows[y]).len() > 0,
        forall|y: int| 0 <= y < rows.len() && y < all.len() ==> #[trigger] all[y] == row_chars(rows[y]),
    ensures
        rows_of_lines(all, k) == Some(rows.take(k as int)),
    decreases k,
{
    if k == 0 {
        assert(rows.take(0) =~= Seq::<Seq<bool>>::empty());
    } else {
        lemma_read_back(rows, all, (k - 1) as nat);
        let row = rows[k - 1];
        let line = row_chars(row);
        assert(all[k - 1] == line);
        assert(line.last() == cell_char(row.last()));
        assert(scan::trim_end(line) == line);
        assert(row_of_line(line) == Some(row)) by {
            assert(Seq::new(line.len(), |x: int| line[x] == '1') =~= row);
        }
        assert(rows.take(k as int) =~= rows.take(k - 1).push(row));
    }
}

/// The text of a grid denotes that grid.
pub proof fn law_grid_text_round_trip(rows: Seq<Seq<bool>>)
    requires
        grid_of(rows) is Ok,
    ensures
        grid_of_text(grid_text(rows)) == grid_of(rows),
{
    lemma_grid_text_lines(rows);
    let all = scan::lines(grid_text(rows));
    assert forall|y: int| 0 <= y < rows.len() implies (#[trigger] rows[y]).len() > 0 by {
        assert(rows[y].len() == rows[0].len());
    }
    lemma_read_back(rows, all, rows.len());
    assert(all[rows.len() as int] =~= Seq::<char>::empty());
    assert(rows.take(rows.len() as int) =~= rows);
    assert(rows_of_lines(all, all.len()) == Some(rows));
}

} // verus!
