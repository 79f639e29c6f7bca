//! Patterns of the published library: reading, wires, phases, ports and composition.

use crate::encoding::{Cell, CellCoord};
use crate::gadget_verifier::{CellLiteral, GadgetPattern, Port};
use crate::grid::{Grid, GridError};
use crate::library::{Alignment, PublishedSize, PublishedSpec, SpecModel};
use crate::scan::{drop_trailing_white, is_white, parse_unsigned, split_lines, split_words};
use crate::settings::BoundaryCondition;
use crate::strmap::StrMap;
use crate::text::chars_of;
use crate::encoding;
use crate::scan;
use vstd::prelude::*;

verus! {

/// The rows of cell values.
pub open spec fn value_rows(cells: Seq<Vec<u8>>) -> Seq<Seq<u8>> {
    Seq::new(cells.len(), |y: int| cells[y]@)
}

/// A pattern of the library: rows of cell values, of which zero means dead.
#[derive(Debug, Clone, PartialEq, Eq)]
pub struct PublishedPattern {
    pub width: usize,
    pub height: usize,
    pub cells: Vec<Vec<u8>>,
}

impl View for PublishedPattern {
    type V = Seq<Seq<u8>>;

    open spec fn view(&self) -> Seq<Seq<u8>> {
        value_rows(self.cells@)
    }
}

/// Where the wires of a pattern end.
#[derive(Debug, Clone, Copy, PartialEq, Eq, Structural)]
pub struct WireAnchors {
    pub east: Option<CellCoord>,
    pub north: Option<CellCoord>,
    pub west: Option<CellCoord>,
    pub south: Option<CellCoord>,
}

/// What is wrong with a pattern, over texts.
pub enum PatternFailure {
    MissingFile(Seq<char>),
    BadRow,
    BadDigit(char),
    Empty,
    Ragged,
    EmptyComposition,
    NotAGrid(GridError),
    UnknownSpec(Seq<char>),
    NoPieces,
}

/// What is wrong with a pattern.
#[derive(Debug)]
pub enum PatternError {
    /// There is no file at the path.
    MissingFile { path: String },
    /// A row of numbers holds something else.
    BadRow,
    /// A row of digits holds something else.
    BadDigit { character: char },
    /// There are no rows.
    Empty,
    /// The rows differ in length.
    Ragged,
    /// There is nothing to compose.
    EmptyComposition,
    /// The cells make no grid.
    NotAGrid { reason: GridError },
    /// The library has no pattern of that name.
    UnknownSpec { name: String },
    /// A search has no pieces.
    NoPieces,
}

impl View for PatternError {
    type V = PatternFailure;

    open spec fn view(&self) -> PatternFailure {
        match *self {
            PatternError::MissingFile { path } => PatternFailure::MissingFile(path@),
            PatternError::BadRow => PatternFailure::BadRow,
            PatternError::BadDigit { character } => PatternFailure::BadDigit(character),
            PatternError::Empty => PatternFailure::Empty,
            PatternError::Ragged => PatternFailure::Ragged,
            PatternError::EmptyComposition => PatternFailure::EmptyComposition,
            PatternError::NotAGrid { reason } => PatternFailure::NotAGrid(reason),
            PatternError::UnknownSpec { name } => PatternFailure::UnknownSpec(name@),
            PatternError::NoPieces => PatternFailure::NoPieces,
        }
    }
}

/// The message of a failure.
pub open spec fn failure_text(failure: PatternFailure) -> Seq<char> {
    match failure {
        PatternFailure::MissingFile(path) => "Failed to read published gadget file "@ + path,
        PatternFailure::BadRow => "Failed to parse published gadget CSV row"@,
        PatternFailure::BadDigit(c) => "Failed to parse digit '"@.push(c) + "' in published row"@,
        PatternFailure::Empty => "Published gadget CSV is empty"@,
        PatternFailure::Ragged => "Published gadget CSV has inconsistent row lengths"@,
        PatternFailure::EmptyComposition => "Cannot compose an empty published-pattern set"@,
        PatternFailure::NotAGrid(reason) => reason.message(),
        PatternFailure::UnknownSpec(name) => "Unknown published spec '"@ + name + "'"@,
        PatternFailure::NoPieces => "Composition search requires at least one piece"@,
    }
}

impl PatternError {
    /// The message of the error.
    pub fn to_string(&self) -> (message: String)
        ensures
            message@ == failure_text(self@),
    {
        match self {
            PatternError::MissingFile { path } => {
                let mut out: String = "Failed to read published gadget file ".to_owned();
                out.append(path.as_str());
                out
            },
            PatternError::BadRow => "Failed to parse published gadget CSV row".to_owned(),
            PatternError::BadDigit { character } => {
                let mut out: String = "Failed to parse digit '".to_owned();
                out.push(*character);
                out.append("' in published row");
                out
            },
            PatternError::Empty => "Published gadget CSV is empty".to_owned(),
            PatternError::Ragged => "Published gadget CSV has inconsistent row lengths".to_owned(),
            PatternError::EmptyComposition => "Cannot compose an empty published-pattern set".to_owned(),
            PatternError::NotAGrid { reason } => reason.to_string(),
            PatternError::UnknownSpec { name } => {
                let mut out: String = "Unknown published spec '".to_owned();
                out.append(name.as_str());
                out.append("'");
                out
            },
            PatternError::NoPieces => "Composition search requires at least one piece".to_owned(),
        }
    }
}

/// The texts of the library's files, by their paths below its root.
#[derive(Debug)]
pub struct PatternFiles {
    pub texts: StrMap<String>,
}

/// The numbers that words denote, or nothing where one denotes none.
pub open spec fn word_values(row: Seq<Seq<char>>, k: nat) -> Option<Seq<u8>>
    decreases k,
{
    if k == 0 {
        Some(Seq::empty())
    } else {
        match (word_values(row, (k - 1) as nat), scan::unsigned_value(row[k - 1], 255)) {
            (Some(earlier), Some(value)) => Some(earlier.push(value as u8)),
            _ => None,
        }
    }
}

/// The digits that characters denote, or the first that denotes none.
pub open spec fn digit_values(row: Seq<char>, k: nat) -> Result<Seq<u8>, char>
    decreases k,
{
    if k == 0 {
        Ok(Seq::empty())
    } else {
        match digit_values(row, (k - 1) as nat) {
            Err(c) => Err(c),
            Ok(earlier) => if crate::scan::digit(row[k - 1]) {
                Ok(earlier.push((row[k - 1] as u32 - 48) as u8))
            } else {
                Err(row[k - 1])
            },
        }
    }
}

/// Some character is white space.
pub open spec fn has_white(line: Seq<char>) -> bool {
    exists|i: int| 0 <= i < line.len() && scan::white(#[trigger] line[i])
}

/// The values that a line denotes: numbers between white space, or single digits.
pub open spec fn line_values(line: Seq<char>) -> Result<Seq<u8>, PatternFailure> {
    if has_white(line) {
        match word_values(scan::words(line), scan::words(line).len()) {
            Some(values) => Ok(values),
            None => Err(PatternFailure::BadRow),
        }
    } else {
        match digit_values(line, line.len()) {
            Ok(values) => Ok(values),
            Err(c) => Err(PatternFailure::BadDigit(c)),
        }
    }
}

/// The values that the first `k` lines denote; comments, which start with a percent sign,
/// and blank lines are skipped.
pub open spec fn rows_up_to(text: Seq<Seq<char>>, k: nat) -> Result<Seq<Seq<u8>>, PatternFailure>
    decreases k,
{
    if k == 0 {
        Ok(Seq::empty())
    } else {
        match rows_up_to(text, (k - 1) as nat) {
            Err(failure) => Err(failure),
            Ok(earlier) => {
                let line = scan::trim_end(text[k - 1]);
                if line.len() == 0 || line[0] == '%' {
                    Ok(earlier)
                } else {
                    match line_values(line) {
                        Err(failure) => Err(failure),
                        Ok(values) => Ok(earlier.push(values)),
                    }
                }
            },
        }
    }
}

/// All rows have the same length.
pub open spec fn same_lengths(rows: Seq<Seq<u8>>) -> bool {
    forall|y: int| 0 <= y < rows.len() ==> (#[trigger] rows[y]).len() == rows[0].len()
}

/// What a text denotes as a pattern.
pub open spec fn pattern_of_text(text: Seq<char>) -> Result<Seq<Seq<u8>>, PatternFailure> {
    match rows_up_to(scan::lines(text), scan::lines(text).len()) {
        Err(failure) => Err(failure),
        Ok(rows) => if rows.len() == 0 {
            Err(PatternFailure::Empty)
        } else if !same_lengths(rows) {
            Err(PatternFailure::Ragged)
        } else {
            Ok(rows)
        },
    }
}

/// A result is the pattern, or the failure.
pub open spec fn is_pattern_result(
    result: Result<PublishedPattern, PatternError>,
    want: Result<Seq<Seq<u8>>, PatternFailure>,
) -> bool {
    match want {
        Ok(rows) => result matches Ok(pattern) && pattern.wf() && pattern@ == rows && rows.len() > 0
            && pattern.width == rows[0].len(),
        Err(failure) => result matches Err(error) && error@ == failure,
    }
}

proof fn lemma_rows_fail(text: Seq<Seq<char>>, j: nat, k: nat)
    requires
        j <= k,
        rows_up_to(text, j) is Err,
    ensures
        rows_up_to(text, k) == rows_up_to(text, j),
    decreases k,
{
    if j < k {
        lemma_rows_fail(text, j, (k - 1) as nat);
    }
}

proof fn lemma_words_fail(row: Seq<Seq<char>>, j: nat, k: nat)
    requires
        j <= k,
        word_values(row, j) is None,
    ensures
        word_values(row, k) is None,
    decreases k,
{
    if j < k {
        lemma_words_fail(row, j, (k - 1) as nat);
    }
}

proof fn lemma_digits_fail(row: Seq<char>, j: nat, k: nat)
    requires
        j <= k,
        digit_values(row, j) is Err,
    ensures
        digit_values(row, k) == digit_values(row, j),
    decreases k,
{
    if j < k {
        lemma_digits_fail(row, j, (k - 1) as nat);
    }
}

fn holds_white(line: &Vec<char>) -> (result: bool)
    ensures
        result == has_white(line@),
{
    let mut i: usize = 0;
    while i < line.len()
        invariant
            i <= line@.len(),
            forall|k: int| 0 <= k < i ==> !scan::white(#[trigger] line@[k]),
        decreases line.len() - i,
    {
        if is_white(line[i]) {
            assert(scan::white(line@[i as int]));
            return true;
        }
        i += 1;
    }
    false
}

/// The values that a line denotes.
fn parse_line(line: &Vec<char>) -> (result: Result<Vec<u8>, PatternError>)
    ensures
        match line_values(line@) {
            Ok(values) => result matches Ok(row) && row@ == values,
            Err(failure) => result matches Err(error) && error@ == failure,
        },
{
    let mut row: Vec<u8> = Vec::new();
    if holds_white(line) {
        let parts: Vec<Vec<char>> = split_words(line);
        let ghost all = scan::rows_of(parts@);
        let mut i: usize = 0;
        while i < parts.len()
            invariant
                i <= parts@.len(),
                all == scan::rows_of(parts@),
                all == scan::words(line@),
                has_white(line@),
                word_values(all, i as nat) == Some(row@),
            decreases parts.len() - i,
        {
            assert(all[i as int] == parts@[i as int]@);
            match parse_unsigned(&parts[i], 255) {
                Some(value) => {
                    row.push(value as u8);
                },
                None => {
                    proof {
                        lemma_words_fail(all, (i + 1) as nat, all.len());
                    }
                    return Err(PatternError::BadRow);
                },
            }
            i += 1;
        }
        Ok(row)
    } else {
        let mut i: usize = 0;
        while i < line.len()
            invariant
                i <= line@.len(),
                !has_white(line@),
                digit_values(line@, i as nat) == Ok::<Seq<u8>, char>(row@),
            decreases line.len() - i,
        {
            let c: char = line[i];
            if '0' <= c && c <= '9' {
                row.push((c as u32 - 48) as u8);
            } else {
                proof {
                    lemma_digits_fail(line@, (i + 1) as nat, line@.len());
                }
                return Err(PatternError::BadDigit { character: c });
            }
            i += 1;
        }
        Ok(row)
    }
}

impl PublishedPattern {
    /// The pattern's validity: its size is that of its cells.
    pub open spec fn wf(&self) -> bool {
        &&& self.cells@.len() == self.height
        &&& forall|y: int| 0 <= y < self.height ==> (#[trigger] self@[y]).len() == self.width
    }

    /// The pattern that a text denotes.
    pub fn from_csv_str(text: &str) -> (result: Result<Self, PatternError>)
        ensures
            is_pattern_result(result, pattern_of_text(text@)),
    {
        let mut text_lines: Vec<Vec<char>> = split_lines(&chars_of(text));
        let ghost all = scan::rows_of(text_lines@);
        let mut rows: Vec<Vec<u8>> = Vec::new();
        let n: usize = text_lines.len();
        let mut k: usize = 0;
        assert(value_rows(rows@) =~= Seq::<Seq<u8>>::empty());
        while k < n
            invariant
                k <= n,
                n == text_lines@.len(),
                n == all.len(),
                all == scan::lines(text@),
                forall|i: int| k <= i < n ==> (#[trigger] text_lines@[i])@ == all[i],
                rows_up_to(all, k as nat) == Ok::<Seq<Seq<u8>>, PatternFailure>(value_rows(rows@)),
            decreases n - k,
        {
            let mut line: Vec<char> = Vec::new();
            std::mem::swap(&mut line, &mut text_lines[k]);
            drop_trailing_white(&mut line);
            if line.len() > 0 && line[0] != '%' {
                match parse_line(&line) {
                    Ok(row) => {
                        let ghost before = rows@;
                        rows.push(row);
                        assert(value_rows(rows@) =~= value_rows(before).push(row@));
                    },
                    Err(error) => {
                        proof {
                            lemma_rows_fail(all, (k + 1) as nat, n as nat);
                        }
                        return Err(error);
                    },
                }
            }
            k += 1;
        }
        if rows.len() == 0 {
            return Err(PatternError::Empty);
        }
        let ghost values = value_rows(rows@);
        let width: usize = rows[0].len();
        let height: usize = rows.len();
        let mut y: usize = 0;
        while y < rows.len()
            invariant
                y <= rows@.len(),
                values == value_rows(rows@),
                rows@.len() > 0,
                values[0].len() == width,
                rows_up_to(scan::lines(text@), scan::lines(text@).len()) == Ok::<Seq<Seq<u8>>, PatternFailure>(values),
                forall|i: int| 0 <= i < y ==> (#[trigger] values[i]).len() == width,
            decreases rows.len() - y,
        {
            assert(values[y as int] == rows@[y as int]@);
            if rows[y].len() != width {
                return Err(PatternError::Ragged);
            }
            y += 1;
        }
        Ok(PublishedPattern { width, height, cells: rows })
    }

    /// The pattern that a file of the library denotes.
    pub fn from_csv_file(files: &PatternFiles, path: &str) -> (result: Result<Self, PatternError>)
        requires
            files.texts.wf(),
        ensures
            is_pattern_result(result, pattern_in_files(files, path@)),
            files.wf() ==> (result matches Ok(pattern) ==> pattern.scannable()),
    {
        match files.texts.get(path) {
            Some(text) => Self::from_csv_str(text.as_str()),
            None => Err(PatternError::MissingFile { path: path.to_owned() }),
        }
    }

    /// The target of the pattern: its cells that are not zero.
    pub fn to_target_grid(&self) -> (result: Result<Grid, GridError>)
        ensures
            match crate::grid::grid_of(alive_rows(self@)) {
                Ok(rows) => result matches Ok(grid) && grid.wf() && grid@ == rows && grid.height == rows.len()
                    && grid.width == rows[0].len() && grid.boundary == BoundaryCondition::Dead,
                Err(failure) => result matches Err(error) && error == failure,
            },
    {
        let ghost rows = alive_rows(self@);
        let mut cells: Vec<Vec<bool>> = Vec::new();
        let mut y: usize = 0;
        while y < self.cells.len()
            invariant
                y <= self.cells@.len(),
                rows == alive_rows(self@),
                cells@.len() == y,
                forall|k: int| 0 <= k < y ==> (#[trigger] cells@[k])@ == rows[k],
            decreases self.cells.len() - y,
        {
            let source: &Vec<u8> = &self.cells[y];
            let mut row: Vec<bool> = Vec::new();
            let mut x: usize = 0;
            while x < source.len()
                invariant
                    x <= source@.len(),
                    row@.len() == x,
                    forall|k: int| 0 <= k < x ==> #[trigger] row@[k] == (source@[k] > 0),
                decreases source.len() - x,
            {
                row.push(source[x] > 0);
                x += 1;
            }
            assert(row@ =~= rows[y as int]);
            cells.push(row);
            y += 1;
        }
        assert(crate::grid::cell_rows(cells@) =~= rows);
        Grid::from_cells(cells, BoundaryCondition::Dead)
    }
}

/// What a file of the library denotes.
pub open spec fn pattern_in_files(files: &PatternFiles, path: Seq<char>) -> Result<Seq<Seq<u8>>, PatternFailure> {
    if files.texts@.contains_key(path) {
        pattern_of_text(files.texts@[path]@)
    } else {
        Err(PatternFailure::MissingFile(path))
    }
}

/// The cells that are not zero.
pub open spec fn alive_rows(rows: Seq<Seq<u8>>) -> Seq<Seq<bool>> {
    Seq::new(rows.len(), |y: int| Seq::new(rows[y].len(), |x: int| rows[y][x] > 0))
}

/// The four cells at a place, its right, its lower and its lower right neighbour, are a wire.
pub open spec fn wire_at(rows: Seq<Seq<u8>>, y: int, x: int) -> bool {
    &&& rows[y][x] == 1 || rows[y][x] == 3
    &&& rows[y + 1][x] == 1 || rows[y + 1][x] == 3
    &&& rows[y][x + 1] == 1 || rows[y][x + 1] == 3
    &&& rows[y + 1][x + 1] == 1 || rows[y + 1][x + 1] == 3
}

/// None of the four cells is zero.
pub open spec fn lit_at(rows: Seq<Seq<u8>>, y: int, x: int) -> bool {
    rows[y][x] > 0 && rows[y + 1][x] > 0 && rows[y][x + 1] > 0 && rows[y + 1][x + 1] > 0
}

/// A wire that ends at the west edge.
pub open spec fn west_wire(rows: Seq<Seq<u8>>, h: int, y: int, x: int) -> bool {
    0 <= y < h - 1 && 0 <= x <= 2 && lit_at(rows, y, 0) && wire_at(rows, y, x)
}

/// A wire that ends at the east edge.
pub open spec fn east_wire(rows: Seq<Seq<u8>>, w: int, h: int, y: int, x: int) -> bool {
    0 <= y < h - 1 && w - 4 <= x <= w - 2 && lit_at(rows, y, w - 2) && wire_at(rows, y, x)
}

/// A wire that ends at the north edge.
pub open spec fn north_wire(rows: Seq<Seq<u8>>, w: int, y: int, x: int) -> bool {
    0 <= x < w - 1 && 0 <= y <= 2 && lit_at(rows, 0, x) && wire_at(rows, y, x)
}

/// A wire that ends at the south edge.
pub open spec fn south_wire(rows: Seq<Seq<u8>>, w: int, h: int, y: int, x: int) -> bool {
    0 <= x < w - 1 && h - 4 <= y <= h - 2 && lit_at(rows, h - 2, x) && wire_at(rows, y, x)
}

/// The west anchor is the lowest wire there and, of those in one row, the rightmost.
pub open spec fn is_west_anchor(rows: Seq<Seq<u8>>, h: int, anchor: Option<CellCoord>) -> bool {
    match anchor {
        Some(c) => west_wire(rows, h, c.y as int, c.x as int) && forall|y: int, x: int| #[trigger]
            west_wire(rows, h, y, x) ==> y < c.y || (y == c.y && x <= c.x),
        None => forall|y: int, x: int| !#[trigger] west_wire(rows, h, y, x),
    }
}

/// The east anchor is the lowest wire there and, of those in one row, the leftmost.
pub open spec fn is_east_anchor(rows: Seq<Seq<u8>>, w: int, h: int, anchor: Option<CellCoord>) -> bool {
    match anchor {
        Some(c) => east_wire(rows, w, h, c.y as int, c.x as int) && forall|y: int, x: int| #[trigger]
            east_wire(rows, w, h, y, x) ==> y < c.y || (y == c.y && x >= c.x),
        None => forall|y: int, x: int| !#[trigger] east_wire(rows, w, h, y, x),
    }
}

/// The north anchor is the rightmost wire there and, of those in one column, the lowest.
pub open spec fn is_north_anchor(rows: Seq<Seq<u8>>, w: int, anchor: Option<CellCoord>) -> bool {
    match anchor {
        Some(c) => north_wire(rows, w, c.y as int, c.x as int) && forall|y: int, x: int| #[trigger]
            north_wire(rows, w, y, x) ==> x < c.x || (x == c.x && y <= c.y),
        None => forall|y: int, x: int| !#[trigger] north_wire(rows, w, y, x),
    }
}

/// The south anchor is the rightmost wire there and, of those in one column, the highest.
pub open spec fn is_south_anchor(rows: Seq<Seq<u8>>, w: int, h: int, anchor: Option<CellCoord>) -> bool {
    match anchor {
        Some(c) => south_wire(rows, w, h, c.y as int, c.x as int) && forall|y: int, x: int| #[trigger]
            south_wire(rows, w, h, y, x) ==> x < c.x || (x == c.x && y >= c.y),
        None => forall|y: int, x: int| !#[trigger] south_wire(rows, w, h, y, x),
    }
}

/// Where the wires of a pattern end.
pub open spec fn are_anchors(rows: Seq<Seq<u8>>, w: int, h: int, anchors: WireAnchors) -> bool {
    &&& is_east_anchor(rows, w, h, anchors.east)
    &&& is_north_anchor(rows, w, anchors.north)
    &&& is_west_anchor(rows, h, anchors.west)
    &&& is_south_anchor(rows, w, h, anchors.south)
}

/// Where the wires of a pattern with the given rows end.
pub open spec fn anchors_in(rows: Seq<Seq<u8>>, w: int, h: int) -> WireAnchors {
    choose|anchors: WireAnchors| are_anchors(rows, w, h, anchors)
}

/// Where the wires of a pattern end.
pub open spec fn anchors_of(pattern: &PublishedPattern) -> WireAnchors {
    anchors_in(pattern@, pattern.width as int, pattern.height as int)
}

/// The anchors of a pattern are unique.
pub proof fn lemma_anchors_unique(pattern: &PublishedPattern, anchors: WireAnchors)
    requires
        are_anchors(pattern@, pattern.width as int, pattern.height as int, anchors),
    ensures
        anchors == anchors_of(pattern),
{
    let rows = pattern@;
    let w = pattern.width as int;
    let h = pattern.height as int;
    let other = anchors_of(pattern);
    assert(are_anchors(rows, w, h, other));
    match (anchors.west, other.west) {
        (Some(a), Some(b)) => {
            assert(west_wire(rows, h, a.y as int, a.x as int));
            assert(west_wire(rows, h, b.y as int, b.x as int));
        },
        (Some(a), None) => {
            assert(west_wire(rows, h, a.y as int, a.x as int));
        },
        (None, Some(b)) => {
            assert(west_wire(rows, h, b.y as int, b.x as int));
        },
        _ => {},
    }
    match (anchors.east, other.east) {
        (Some(a), Some(b)) => {
            assert(east_wire(rows, w, h, a.y as int, a.x as int));
            assert(east_wire(rows, w, h, b.y as int, b.x as int));
        },
        (Some(a), None) => {
            assert(east_wire(rows, w, h, a.y as int, a.x as int));
        },
        (None, Some(b)) => {
            assert(east_wire(rows, w, h, b.y as int, b.x as int));
        },
        _ => {},
    }
    match (anchors.north, other.north) {
        (Some(a), Some(b)) => {
            assert(north_wire(rows, w, a.y as int, a.x as int));
            assert(north_wire(rows, w, b.y as int, b.x as int));
        },
        (Some(a), None) => {
            assert(north_wire(rows, w, a.y as int, a.x as int));
        },
        (None, Some(b)) => {
            assert(north_wire(rows, w, b.y as int, b.x as int));
        },
        _ => {},
    }
    match (anchors.south, other.south) {
        (Some(a), Some(b)) => {
            assert(south_wire(rows, w, h, a.y as int, a.x as int));
            assert(south_wire(rows, w, h, b.y as int, b.x as int));
        },
        (Some(a), None) => {
            assert(south_wire(rows, w, h, a.y as int, a.x as int));
        },
        (None, Some(b)) => {
            assert(south_wire(rows, w, h, b.y as int, b.x as int));
        },
        _ => {},
    }
}

/// A cell of a wire.
pub open spec fn is_wire_value(value: u8) -> bool {
    value == 1 || value == 3
}

/// Four lit cells at the west edge, and behind them a column of wire at the east edge of a pattern
/// three cells wide.
pub open spec fn runs_out_east(rows: Seq<Seq<u8>>, y: int) -> bool {
    lit_at(rows, y, 0) && is_wire_value(rows[y][2]) && is_wire_value(rows[y + 1][2])
}

/// Four lit cells at the north edge, and below the left ones a cell of wire at the south edge of a
/// pattern three cells high.
pub open spec fn runs_out_south(rows: Seq<Seq<u8>>, x: int) -> bool {
    lit_at(rows, 0, x) && is_wire_value(rows[2][x])
}

/// The edges of a pattern can be looked at: no cell outside the pattern is needed to tell whether a
/// wire ends there. In a pattern of two or three columns or rows, that depends on its lit cells.
pub open spec fn rows_scannable(rows: Seq<Seq<u8>>, w: int, h: int) -> bool {
    &&& w + 4 <= isize::MAX
    &&& h + 4 <= isize::MAX
    &&& (w < 2 && h < 2) || (w >= 2 && h >= 2)
    &&& w == 2 ==> forall|y: int| 0 <= y < h - 1 ==> !#[trigger] lit_at(rows, y, 0)
    &&& w == 3 ==> forall|y: int| 0 <= y < h - 1 ==> !#[trigger] runs_out_east(rows, y)
    &&& w < 4 ==> forall|y: int| 0 <= y < h - 1 ==> !#[trigger] lit_at(rows, y, w - 2)
    &&& h == 2 ==> forall|x: int| 0 <= x < w - 1 ==> !#[trigger] lit_at(rows, 0, x)
    &&& h == 3 ==> forall|x: int| 0 <= x < w - 1 ==> !#[trigger] runs_out_south(rows, x)
    &&& h < 4 ==> forall|x: int| 0 <= x < w - 1 ==> !#[trigger] lit_at(rows, h - 2, x)
}

impl PatternFiles {
    /// The validity of the files: the edges of every pattern can be looked at.
    pub open spec fn wf(&self) -> bool {
        &&& self.texts.wf()
        &&& forall|path: Seq<char>| #[trigger]
            self.texts@.contains_key(path) ==> (pattern_of_text(self.texts@[path]@) matches Ok(rows)
                ==> rows_scannable(rows, rows[0].len() as int, rows.len() as int))
    }

    /// No files.
    pub fn new() -> (files: Self)
        ensures
            files.wf(),
            files.texts@ == Map::<Seq<char>, String>::empty(),
    {
        PatternFiles { texts: StrMap::new() }
    }

    /// Adds the text of a file, unless it denotes a pattern whose edges cannot be looked at.
    pub fn add_file(&mut self, path: &str, text: String) -> (added: bool)
        requires
            old(self).wf(),
        ensures
            final(self).wf(),
            added == (pattern_of_text(text@) matches Ok(rows) ==> rows_scannable(
                rows,
                rows[0].len() as int,
                rows.len() as int,
            )),
            added ==> final(self).texts@ == old(self).texts@.insert(path@, text),
            !added ==> final(self).texts@ == old(self).texts@,
    {
        let usable: bool = match PublishedPattern::from_csv_str(text.as_str()) {
            Ok(pattern) => pattern.is_scannable(),
            Err(_) => true,
        };
        if usable {
            self.texts.insert(path.to_owned(), text);
        }
        usable
    }
}

/// The phase of a wire that ends at the given distance from where wires of phase zero end.
pub open spec fn phase_of(distance: int) -> i8 {
    (distance % 3 - 1) as i8
}

/// The phases of the wires that end at the given anchors.
pub open spec fn phases_of(anchors: WireAnchors, w: int, h: int) -> Alignment {
    (
        match anchors.east {
            Some(c) => Some(phase_of(c.x - w + 2)),
            None => None,
        },
        match anchors.north {
            Some(c) => Some(phase_of(c.y - 1)),
            None => None,
        },
        match anchors.west {
            Some(c) => Some(phase_of(c.x - 1)),
            None => None,
        },
        match anchors.south {
            Some(c) => Some(phase_of(c.y - h + 2)),
            None => None,
        },
    )
}

/// The phases of the wires of a pattern with the given rows.
pub open spec fn alignment_in(rows: Seq<Seq<u8>>) -> Alignment {
    phases_of(anchors_in(rows, rows[0].len() as int, rows.len() as int), rows[0].len() as int, rows.len() as int)
}

/// The phases of a pattern's wires.
pub open spec fn alignment_of(pattern: &PublishedPattern) -> Alignment {
    phases_of(anchors_of(pattern), pattern.width as int, pattern.height as int)
}

/// The phase of a wire at a small distance.
fn phase(distance: isize) -> (p: i8)
    requires
        -4 < distance < 4,
    ensures
        p == phase_of(distance as int),
        -1 <= p <= 1,
{
    if distance == 0 || distance == 3 || distance == -3 {
        -1
    } else if distance == 1 || distance == -2 {
        0
    } else {
        1
    }
}

impl PublishedPattern {
    /// The pattern is valid, and its edges can be looked at.
    pub open spec fn scannable(&self) -> bool {
        self.wf() && rows_scannable(self@, self.width as int, self.height as int)
    }

    /// Whether the edges of the pattern can be looked at.
    pub fn is_scannable(&self) -> (result: bool)
        requires
            self.wf(),
        ensures
            result == self.scannable(),
    {
        let ghost rows = self@;
        let w: usize = self.width;
        let h: usize = self.height;
        if w > isize::MAX as usize - 4 || h > isize::MAX as usize - 4 {
            return false;
        }
        if w < 2 || h < 2 {
            return w < 2 && h < 2;
        }
        if w < 4 {
            let mut y: usize = 0;
            while y < h - 1
                invariant
                    y <= h - 1,
                    h == self.height,
                    w == self.width,
                    2 <= w < 4,
                    h >= 2,
                    rows == self@,
                    self.wf(),
                    w == 2 ==> forall|k: int| 0 <= k < y ==> !#[trigger] lit_at(rows, k, 0),
                    w == 3 ==> forall|k: int| 0 <= k < y ==> !#[trigger] runs_out_east(rows, k),
                    forall|k: int| 0 <= k < y ==> !#[trigger] lit_at(rows, k, w - 2),
                decreases h - y,
            {
                if self.is_lit(y, w - 2) {
                    return false;
                }
                if w == 3 {
                    let upper: u8 = self.cell(y, 2);
                    let lower: u8 = self.cell(y + 1, 2);
                    if self.is_lit(y, 0) && (upper == 1 || upper == 3) && (lower == 1 || lower == 3) {
                        assert(runs_out_east(rows, y as int));
                        return false;
                    }
                }
                y += 1;
            }
        }
        if h < 4 {
            let mut x: usize = 0;
            while x < w - 1
                invariant
                    x <= w - 1,
                    h == self.height,
                    w == self.width,
                    2 <= h < 4,
                    w >= 2,
                    rows == self@,
                    self.wf(),
                    h == 2 ==> forall|k: int| 0 <= k < x ==> !#[trigger] lit_at(rows, 0, k),
                    h == 3 ==> forall|k: int| 0 <= k < x ==> !#[trigger] runs_out_south(rows, k),
                    forall|k: int| 0 <= k < x ==> !#[trigger] lit_at(rows, h - 2, k),
                decreases w - x,
            {
                if self.is_lit(h - 2, x) {
                    return false;
                }
                if h == 3 {
                    let below: u8 = self.cell(2, x);
                    if self.is_lit(0, x) && (below == 1 || below == 3) {
                        assert(runs_out_south(rows, x as int));
                        return false;
                    }
                }
                x += 1;
            }
        }
        true
    }

    fn cell(&self, y: usize, x: usize) -> (value: u8)
        requires
            self.wf(),
            y < self.height,
            x < self.width,
        ensures
            value == self@[y as int][x as int],
    {
        assert(self@[y as int] == self.cells@[y as int]@);
        self.cells[y][x]
    }

    fn is_wire(&self, y: usize, x: usize) -> (result: bool)
        requires
            self.wf(),
            y + 1 < self.height,
            x + 1 < self.width,
        ensures
            result == wire_at(self@, y as int, x as int),
    {
        let a: u8 = self.cell(y, x);
        let b: u8 = self.cell(y + 1, x);
        let c: u8 = self.cell(y, x + 1);
        let d: u8 = self.cell(y + 1, x + 1);
        (a == 1 || a == 3) && (b == 1 || b == 3) && (c == 1 || c == 3) && (d == 1 || d == 3)
    }

    fn is_lit(&self, y: usize, x: usize) -> (result: bool)
        requires
            self.wf(),
            y + 1 < self.height,
            x + 1 < self.width,
        ensures
            result == lit_at(self@, y as int, x as int),
    {
        self.cell(y, x) > 0 && self.cell(y + 1, x) > 0 && self.cell(y, x + 1) > 0 && self.cell(y + 1, x + 1) > 0
    }

    fn west_anchor(&self) -> (anchor: Option<CellCoord>)
        requires
            self.scannable(),
        ensures
            is_west_anchor(self@, self.height as int, anchor),
    {
        let ghost rows = self@;
        let ghost h = self.height as int;
        let mut anchor: Option<CellCoord> = None;
        let mut y: usize = 0;
        while y + 1 < self.height
            invariant
                y <= self.height,
                rows == self@,
                h == self.height,
                self.scannable(),
                match anchor {
                    Some(c) => west_wire(rows, h, c.y as int, c.x as int) && c.y < y,
                    None => true,
                },
                forall|b: int, a: int| #[trigger]
                    west_wire(rows, h, b, a) && b < y ==> (anchor matches Some(c) && (b < c.y || (b == c.y && a
                        <= c.x))),
            decreases self.height - y,
        {
            if self.is_lit(y, 0) {
                assert(self.width >= 3) by {
                    if self.width < 3 {
                        assert(!lit_at(rows, y as int, 0));
                    }
                }
                let mut x: usize = 0;
                while x < 3
                    invariant
                        x <= 3,
                        y + 1 < self.height,
                        rows == self@,
                        h == self.height,
                        self.scannable(),
                        self.width >= 3,
                        lit_at(rows, y as int, 0),
                        match anchor {
                            Some(c) => west_wire(rows, h, c.y as int, c.x as int) && (c.y < y || (c.y == y && c.x
                                < x)),
                            None => true,
                        },
                        forall|b: int, a: int| #[trigger]
                            west_wire(rows, h, b, a) && (b < y || (b == y && a < x)) ==> (anchor matches Some(c)
                                && (b < c.y || (b == c.y && a <= c.x))),
                    decreases 3 - x,
                {
                    proof {
                        if self.width == 3 && x == 2 {
                            assert(!runs_out_east(rows, y as int));
                        }
                    }
                    if x + 1 < self.width && self.is_wire(y, x) {
                        anchor = Some(CellCoord::new(x as isize, y as isize));
                    }
                    x += 1;
                }
            }
            y += 1;
        }
        anchor
    }

    fn east_anchor(&self) -> (anchor: Option<CellCoord>)
        requires
            self.scannable(),
        ensures
            is_east_anchor(self@, self.width as int, self.height as int, anchor),
    {
        let ghost rows = self@;
        let ghost w = self.width as int;
        let ghost h = self.height as int;
        let mut anchor: Option<CellCoord> = None;
        let mut y: usize = 0;
        while y + 1 < self.height
            invariant
                y <= self.height,
                rows == self@,
                w == self.width,
                h == self.height,
                self.scannable(),
                match anchor {
                    Some(c) => east_wire(rows, w, h, c.y as int, c.x as int) && c.y < y,
                    None => true,
                },
                forall|b: int, a: int| #[trigger]
                    east_wire(rows, w, h, b, a) && b < y ==> (anchor matches Some(c) && (b < c.y || (b == c.y
                        && a >= c.x))),
            decreases self.height - y,
        {
            if self.is_lit(y, self.width - 2) {
                assert(self.width >= 4) by {
                    if self.width < 4 {
                        assert(!lit_at(rows, y as int, w - 2));
                    }
                }
                let mut k: usize = 0;
                while k < 3
                    invariant
                        k <= 3,
                        y + 1 < self.height,
                        rows == self@,
                        w == self.width,
                        h == self.height,
                        self.scannable(),
                        self.width >= 4,
                        lit_at(rows, y as int, w - 2),
                        match anchor {
                            Some(c) => east_wire(rows, w, h, c.y as int, c.x as int) && (c.y < y || (c.y == y && c.x
                                > w - 2 - k)),
                            None => true,
                        },
                        forall|b: int, a: int| #[trigger]
                            east_wire(rows, w, h, b, a) && (b < y || (b == y && a > w - 2 - k)) ==> (
                            anchor matches Some(c) && (b < c.y || (b == c.y && a >= c.x))),
                    decreases 3 - k,
                {
                    let x: usize = self.width - 2 - k;
                    if self.is_wire(y, x) {
                        anchor = Some(CellCoord::new(x as isize, y as isize));
                    }
                    k += 1;
                }
            }
            y += 1;
        }
        anchor
    }

    fn north_anchor(&self) -> (anchor: Option<CellCoord>)
        requires
            self.scannable(),
        ensures
            is_north_anchor(self@, self.width as int, anchor),
    {
        let ghost rows = self@;
        let ghost w = self.width as int;
        let mut anchor: Option<CellCoord> = None;
        let mut x: usize = 0;
        while x + 1 < self.width
            invariant
                x <= self.width,
                rows == self@,
                w == self.width,
                self.scannable(),
                match anchor {
                    Some(c) => north_wire(rows, w, c.y as int, c.x as int) && c.x < x,
                    None => true,
                },
                forall|b: int, a: int| #[trigger]
                    north_wire(rows, w, b, a) && a < x ==> (anchor matches Some(c) && (a < c.x || (a == c.x && b
                        <= c.y))),
            decreases self.width - x,
        {
            if self.is_lit(0, x) {
                assert(self.height >= 3) by {
                    if self.height < 3 {
                        assert(!lit_at(rows, 0, x as int));
                    }
                }
                let mut y: usize = 0;
                while y < 3
                    invariant
                        y <= 3,
                        x + 1 < self.width,
                        rows == self@,
                        w == self.width,
                        self.scannable(),
                        self.height >= 3,
                        lit_at(rows, 0, x as int),
                        match anchor {
                            Some(c) => north_wire(rows, w, c.y as int, c.x as int) && (c.x < x || (c.x == x && c.y
                                < y)),
                            None => true,
                        },
                        forall|b: int, a: int| #[trigger]
                            north_wire(rows, w, b, a) && (a < x || (a == x && b < y)) ==> (anchor matches Some(c)
                                && (a < c.x || (a == c.x && b <= c.y))),
                    decreases 3 - y,
                {
                    proof {
                        if self.height == 3 && y == 2 {
                            assert(!runs_out_south(rows, x as int));
                        }
                    }
                    if y + 1 < self.height && self.is_wire(y, x) {
                        anchor = Some(CellCoord::new(x as isize, y as isize));
                    }
                    y += 1;
                }
            }
            x += 1;
        }
        anchor
    }

    fn south_anchor(&self) -> (anchor: Option<CellCoord>)
        requires
            self.scannable(),
        ensures
            is_south_anchor(self@, self.width as int, self.height as int, anchor),
    {
        let ghost rows = self@;
        let ghost w = self.width as int;
        let ghost h = self.height as int;
        let mut anchor: Option<CellCoord> = None;
        let mut x: usize = 0;
        while x + 1 < self.width
            invariant
                x <= self.width,
                rows == self@,
                w == self.width,
                h == self.height,
                self.scannable(),
                match anchor {
                    Some(c) => south_wire(rows, w, h, c.y as int, c.x as int) && c.x < x,
                    None => true,
                },
                forall|b: int, a: int| #[trigger]
                    south_wire(rows, w, h, b, a) && a < x ==> (anchor matches Some(c) && (a < c.x || (a == c.x
                        && b >= c.y))),
            decreases self.width - x,
        {
            if self.is_lit(self.height - 2, x) {
                assert(self.height >= 4) by {
                    if self.height < 4 {
                        assert(!lit_at(rows, h - 2, x as int));
                    }
                }
                let mut k: usize = 0;
                while k < 3
                    invariant
                        k <= 3,
                        x + 1 < self.width,
                        rows == self@,
                        w == self.width,
                        h == self.height,
                        self.scannable(),
                        self.height >= 4,
                        lit_at(rows, h - 2, x as int),
                        match anchor {
                            Some(c) => south_wire(rows, w, h, c.y as int, c.x as int) && (c.x < x || (c.x == x && c.y
                                > h - 2 - k)),
                            None => true,
                        },
                        forall|b: int, a: int| #[trigger]
                            south_wire(rows, w, h, b, a) && (a < x || (a == x && b > h - 2 - k)) ==> (
                            anchor matches Some(c) && (a < c.x || (a == c.x && b >= c.y))),
                    decreases 3 - k,
                {
                    let y: usize = self.height - 2 - k;
                    if self.is_wire(y, x) {
                        anchor = Some(CellCoord::new(x as isize, y as isize));
                    }
                    k += 1;
                }
            }
            x += 1;
        }
        anchor
    }

    /// Where the wires of the pattern end.
    pub fn find_wires(&self) -> (anchors: WireAnchors)
        requires
            self.scannable(),
        ensures
            are_anchors(self@, self.width as int, self.height as int, anchors),
            anchors == anchors_of(self),
    {
        let anchors: WireAnchors = WireAnchors {
            east: self.east_anchor(),
            north: self.north_anchor(),
            west: self.west_anchor(),
            south: self.south_anchor(),
        };
        proof {
            lemma_anchors_unique(self, anchors);
        }
        anchors
    }

    /// The phases of the pattern's wires.
    pub fn phase_alignment(&self) -> (alignment: Alignment)
        requires
            self.scannable(),
        ensures
            alignment == alignment_of(self),
    {
        let wires: WireAnchors = self.find_wires();
        let width: isize = self.width as isize;
        let height: isize = self.height as isize;
        let east: Option<i8> = match wires.east {
            Some(c) => Some(phase(c.x - width + 2)),
            None => None,
        };
        let north: Option<i8> = match wires.north {
            Some(c) => Some(phase(c.y - 1)),
            None => None,
        };
        let west: Option<i8> = match wires.west {
            Some(c) => Some(phase(c.x - 1)),
            None => None,
        };
        let south: Option<i8> = match wires.south {
            Some(c) => Some(phase(c.y - height + 2)),
            None => None,
        };
        (east, north, west, south)
    }
}

/// The cells that a wire shows for a value: of two neighbouring columns, the first is
/// alive for zero and the second for one.
pub open spec fn column_literals(anchor: Cell, value: int) -> Seq<(Cell, bool)> {
    Seq::new(8, |i: int| ((anchor.0 + i / 4, anchor.1 + i % 4 - 1), i / 4 == value))
}

/// The cells that a wire shows for a value: of two neighbouring rows, the first is alive
/// for zero and the second for one.
pub open spec fn row_literals(anchor: Cell, value: int) -> Seq<(Cell, bool)> {
    Seq::new(8, |i: int| ((anchor.0 + i / 2 - 1, anchor.1 + i % 2), i % 2 == value))
}

/// Literals as places and values.
pub open spec fn literal_models(literals: Seq<CellLiteral>) -> Seq<(Cell, bool)> {
    Seq::new(literals.len(), |i: int| (literals[i].coord@, literals[i].alive))
}

/// A port with the two values of a wire as its states.
pub open spec fn is_wire_port(port: Port, name: Seq<char>, zero: Seq<(Cell, bool)>, one: Seq<(Cell, bool)>) -> bool {
    &&& port.wf()
    &&& port.name@ == name
    &&& port.states@.dom() == set!["0"@, "1"@]
    &&& literal_models(port.states@["0"@]@) == zero
    &&& literal_models(port.states@["1"@]@) == one
}

fn column_state(anchor: CellCoord, value: isize) -> (literals: Vec<CellLiteral>)
    requires
        isize::MIN + 4 <= anchor.x <= isize::MAX - 4,
        isize::MIN + 4 <= anchor.y <= isize::MAX - 4,
    ensures
        literal_models(literals@) == column_literals(anchor@, value as int),
{
    let mut literals: Vec<CellLiteral> = Vec::new();
    let mut i: isize = 0;
    while i < 8
        invariant
            0 <= i <= 8,
            isize::MIN + 4 <= anchor.x <= isize::MAX - 4,
            isize::MIN + 4 <= anchor.y <= isize::MAX - 4,
            literals@.len() == i,
            forall|k: int|
                0 <= k < i ==> ((#[trigger] literals@[k]).coord@, literals@[k].alive) == column_literals(
                    anchor@,
                    value as int,
                )[k],
        decreases 8 - i,
    {
        let dx: isize = i / 4;
        let dy: isize = i % 4 - 1;
        literals.push(
            CellLiteral { coord: CellCoord::new(anchor.x + dx, anchor.y + dy), alive: dx == value },
        );
        i += 1;
    }
    assert(literal_models(literals@) =~= column_literals(anchor@, value as int));
    literals
}

fn row_state(anchor: CellCoord, value: isize) -> (literals: Vec<CellLiteral>)
    requires
        isize::MIN + 4 <= anchor.x <= isize::MAX - 4,
        isize::MIN + 4 <= anchor.y <= isize::MAX - 4,
    ensures
        literal_models(literals@) == row_literals(anchor@, value as int),
{
    let mut literals: Vec<CellLiteral> = Vec::new();
    let mut i: isize = 0;
    while i < 8
        invariant
            0 <= i <= 8,
            isize::MIN + 4 <= anchor.x <= isize::MAX - 4,
            isize::MIN + 4 <= anchor.y <= isize::MAX - 4,
            literals@.len() == i,
            forall|k: int|
                0 <= k < i ==> ((#[trigger] literals@[k]).coord@, literals@[k].alive) == row_literals(
                    anchor@,
                    value as int,
                )[k],
        decreases 8 - i,
    {
        let dx: isize = i / 2 - 1;
        let dy: isize = i % 2;
        literals.push(
            CellLiteral { coord: CellCoord::new(anchor.x + dx, anchor.y + dy), alive: dy == value },
        );
        i += 1;
    }
    assert(literal_models(literals@) =~= row_literals(anchor@, value as int));
    literals
}

proof fn lemma_state_names()
    ensures
        "0"@ != "1"@,
{
    reveal_strlit("0");
    reveal_strlit("1");
    assert("0"@[0] != "1"@[0]);
}

/// The port of a wire that ends in the east.
fn east_port(anchor: CellCoord) -> (port: Port)
    requires
        isize::MIN + 4 <= anchor.x <= isize::MAX - 4,
        isize::MIN + 4 <= anchor.y <= isize::MAX - 4,
    ensures
        is_wire_port(port, "E"@, column_literals(anchor@, 0), column_literals(anchor@, 1)),
{
    proof {
        lemma_state_names();
    }
    let port: Port = Port::new("E").with_state("0", column_state(anchor, 0)).with_state(
        "1",
        column_state(anchor, 1),
    );
    assert(port.states@.dom() =~= set!["0"@, "1"@]);
    port
}

/// The port of a wire that ends in the west.
fn west_port(anchor: CellCoord) -> (port: Port)
    requires
        isize::MIN + 4 <= anchor.x <= isize::MAX - 4,
        isize::MIN + 4 <= anchor.y <= isize::MAX - 4,
    ensures
        is_wire_port(port, "W"@, column_literals(anchor@, 0), column_literals(anchor@, 1)),
{
    proof {
        lemma_state_names();
    }
    let port: Port = Port::new("W").with_state("0", column_state(anchor, 0)).with_state(
        "1",
        column_state(anchor, 1),
    );
    assert(port.states@.dom() =~= set!["0"@, "1"@]);
    port
}

/// The port of a wire that ends in the north.
fn north_port(anchor: CellCoord) -> (port: Port)
    requires
        isize::MIN + 4 <= anchor.x <= isize::MAX - 4,
        isize::MIN + 4 <= anchor.y <= isize::MAX - 4,
    ensures
        is_wire_port(port, "N"@, row_literals(anchor@, 0), row_literals(anchor@, 1)),
{
    proof {
        lemma_state_names();
    }
    let port: Port = Port::new("N").with_state("0", row_state(anchor, 0)).with_state("1", row_state(anchor, 1));
    assert(port.states@.dom() =~= set!["0"@, "1"@]);
    port
}

/// The port of a wire that ends in the south.
fn south_port(anchor: CellCoord) -> (port: Port)
    requires
        isize::MIN + 4 <= anchor.x <= isize::MAX - 4,
        isize::MIN + 4 <= anchor.y <= isize::MAX - 4,
    ensures
        is_wire_port(port, "S"@, row_literals(anchor@, 0), row_literals(anchor@, 1)),
{
    proof {
        lemma_state_names();
    }
    let port: Port = Port::new("S").with_state("0", row_state(anchor, 0)).with_state("1", row_state(anchor, 1));
    assert(port.states@.dom() =~= set!["0"@, "1"@]);
    port
}

/// A cell at the edge of a pattern, or right outside it.
pub open spec fn at_border(cell: Cell, w: int, h: int) -> bool {
    encoding::in_domain(cell, w, h) && (cell.0 <= 0 || cell.0 >= w - 1 || cell.1 <= 0 || cell.1 >= h - 1)
}

/// A cell of the border through which a wire leaves the pattern.
pub open spec fn at_opening(cell: Cell, w: int, h: int, anchors: WireAnchors) -> bool {
    ||| anchors.east matches Some(a) && (cell.0 == w - 1 || cell.0 == w) && a.y - 1 <= cell.1 <= a.y + 2
    ||| anchors.north matches Some(a) && (cell.1 == -1 || cell.1 == 0) && a.x - 1 <= cell.0 <= a.x + 2
    ||| anchors.west matches Some(a) && (cell.0 == -1 || cell.0 == 0) && a.y - 1 <= cell.1 <= a.y + 2
    ||| anchors.south matches Some(a) && (cell.1 == h - 1 || cell.1 == h) && a.x - 1 <= cell.0 <= a.x + 2
}

/// One cell comes before another: by columns, and within a column by rows.
pub open spec fn cell_less(a: Cell, b: Cell) -> bool {
    a.0 < b.0 || (a.0 == b.0 && a.1 < b.1)
}

/// The literals say that exactly the border cells away from the openings are dead, in
/// ascending order.
pub open spec fn seals_border(literals: Seq<CellLiteral>, w: int, h: int, anchors: WireAnchors) -> bool {
    &&& forall|i: int| 0 <= i < literals.len() ==> !(#[trigger] literals[i]).alive
    &&& forall|i: int, j: int| #![trigger literals[i], literals[j]]
        0 <= i < j < literals.len() ==> cell_less(literals[i].coord@, literals[j].coord@)
    &&& forall|i: int|
        0 <= i < literals.len() ==> at_border((#[trigger] literals[i]).coord@, w, h) && !at_opening(
            literals[i].coord@,
            w,
            h,
            anchors,
        )
    &&& forall|cell: Cell| #[trigger]
        at_border(cell, w, h) && !at_opening(cell, w, h, anchors) ==> exists|i: int|
            0 <= i < literals.len() && (#[trigger] literals[i]).coord@ == cell
}

/// The wires of a pattern: the name of the port, where the wire ends, and whether it ends
/// in the east or the west.
pub open spec fn wires_of(anchors: WireAnchors) -> Seq<(Seq<char>, Cell, bool)> {
    (match anchors.east {
        Some(c) => seq![("E"@, c@, true)],
        None => Seq::empty(),
    }) + (match anchors.north {
        Some(c) => seq![("N"@, c@, false)],
        None => Seq::empty(),
    }) + (match anchors.west {
        Some(c) => seq![("W"@, c@, true)],
        None => Seq::empty(),
    }) + (match anchors.south {
        Some(c) => seq![("S"@, c@, false)],
        None => Seq::empty(),
    })
}

/// The port of a wire.
pub open spec fn is_port_of(port: Port, wire: (Seq<char>, Cell, bool)) -> bool {
    if wire.2 {
        is_wire_port(port, wire.0, column_literals(wire.1, 0), column_literals(wire.1, 1))
    } else {
        is_wire_port(port, wire.0, row_literals(wire.1, 0), row_literals(wire.1, 1))
    }
}

/// The ports of wires.
pub open spec fn are_ports_of(ports: Seq<Port>, wires: Seq<(Seq<char>, Cell, bool)>) -> bool {
    &&& ports.len() == wires.len()
    &&& forall|i: int| 0 <= i < ports.len() ==> is_port_of(#[trigger] ports[i], wires[i])
}

/// The gadget of a pattern: its target, a port for each wire, and a dead border.
pub open spec fn is_gadget_of(gadget: &GadgetPattern, pattern: &PublishedPattern, name: Seq<char>) -> bool {
    let anchors = anchors_of(pattern);
    &&& gadget.wf()
    &&& gadget.name@ == name
    &&& gadget.target@ == alive_rows(pattern@)
    &&& gadget.target.width == pattern.width
    &&& gadget.target.height == pattern.height
    &&& are_ports_of(gadget.ports@, wires_of(anchors))
    &&& seals_border(gadget.base_predecessor_literals@, pattern.width as int, pattern.height as int, anchors)
}

fn between(n: isize, low: isize, high: isize) -> (result: bool)
    ensures
        result == (low <= n <= high),
{
    low <= n && n <= high
}

impl PublishedPattern {
    fn is_opening(&self, x: isize, y: isize, wires: WireAnchors) -> (result: bool)
        requires
            self.scannable(),
            wires == anchors_of(self),
            are_anchors(self@, self.width as int, self.height as int, wires),
        ensures
            result == at_opening((x as int, y as int), self.width as int, self.height as int, wires),
    {
        let w: isize = self.width as isize;
        let h: isize = self.height as isize;
        if let Some(a) = wires.east {
            if (x == w - 1 || x == w) && between(y, a.y - 1, a.y + 2) {
                return true;
            }
        }
        if let Some(a) = wires.north {
            if (y == -1 || y == 0) && between(x, a.x - 1, a.x + 2) {
                return true;
            }
        }
        if let Some(a) = wires.west {
            if (x == -1 || x == 0) && between(y, a.y - 1, a.y + 2) {
                return true;
            }
        }
        if let Some(a) = wires.south {
            if (y == h - 1 || y == h) && between(x, a.x - 1, a.x + 2) {
                return true;
            }
        }
        false
    }

    /// The dead cells around the pattern, away from where wires leave it.
    fn thick_border_literals(&self, wires: WireAnchors) -> (literals: Vec<CellLiteral>)
        requires
            self.scannable(),
            wires == anchors_of(self),
            are_anchors(self@, self.width as int, self.height as int, wires),
        ensures
            seals_border(literals@, self.width as int, self.height as int, wires),
    {
        let mut literals: Vec<CellLiteral> = Vec::new();
        if self.width == 0 || self.height == 0 {
            return literals;
        }
        let w: isize = self.width as isize;
        let h: isize = self.height as isize;
        let ghost wi = w as int;
        let ghost hi = h as int;
        let mut x: isize = -1;
        while x <= w
            invariant
                -1 <= x <= w + 1,
                self.scannable(),
                wires == anchors_of(self),
                are_anchors(self@, wi, hi, wires),
                w == self.width,
                h == self.height,
                wi == w,
                hi == h,
                w > 0,
                h > 0,
                borders_so_far(literals@, wi, hi, wires, x as int, -1),
            decreases w + 1 - x,
        {
            let mut y: isize = -1;
            while y <= h
                invariant
                    -1 <= y <= h + 1,
                    -1 <= x <= w,
                    self.scannable(),
                    wires == anchors_of(self),
                    are_anchors(self@, wi, hi, wires),
                    w == self.width,
                    h == self.height,
                    wi == w,
                    hi == h,
                    w > 0,
                    h > 0,
                    borders_so_far(literals@, wi, hi, wires, x as int, y as int),
                decreases h + 1 - y,
            {
                let ghost before = literals@;
                let ghost cell = (x as int, y as int);
                let keep: bool = (x <= 0 || x >= w - 1 || y <= 0 || y >= h - 1) && !self.is_opening(x, y, wires);
                if keep {
                    literals.push(CellLiteral::dead(x, y));
                    assert(literals@.drop_last() =~= before);
                }
                proof {
                    lemma_border_step(before, literals@, wi, hi, wires, x as int, y as int, keep);
                }
                y += 1;
            }
            proof {
                assert forall|c: Cell| #[trigger]
                    at_border(c, wi, hi) && !at_opening(c, wi, hi, wires) && cell_less(c, (x + 1, -1int))
                    implies exists|i: int| 0 <= i < literals@.len() && (#[trigger] literals@[i]).coord@ == c by {
                    assert(cell_less(c, (x as int, y as int)));
                }
            }
            x += 1;
        }
        proof {
            assert forall|c: Cell| #[trigger] at_border(c, wi, hi) && !at_opening(c, wi, hi, wires) implies exists|
                i: int,
            |
                0 <= i < literals@.len() && (#[trigger] literals@[i]).coord@ == c by {
                assert(cell_less(c, (x as int, -1int)));
            }
        }
        literals
    }

    /// The gadget of the pattern.
    pub fn to_gadget_pattern(&self, name: &str) -> (result: Result<GadgetPattern, PatternError>)
        requires
            self.scannable(),
        ensures
            match crate::grid::grid_of(alive_rows(self@)) {
                Ok(_) => result matches Ok(gadget) && is_gadget_of(&gadget, self, name@),
                Err(reason) => result matches Err(error) && error@ == PatternFailure::NotAGrid(reason),
            },
    {
        let wires: WireAnchors = self.find_wires();
        let target: Grid = match self.to_target_grid() {
            Ok(target) => target,
            Err(reason) => {
                return Err(PatternError::NotAGrid { reason });
            },
        };
        assert(alive_rows(self@)[0].len() == self@[0].len());
        let mut gadget: GadgetPattern = GadgetPattern::new(name, target);
        if let Some(anchor) = wires.east {
            gadget = gadget.with_port(east_port(anchor));
        }
        if let Some(anchor) = wires.north {
            gadget = gadget.with_port(north_port(anchor));
        }
        if let Some(anchor) = wires.west {
            gadget = gadget.with_port(west_port(anchor));
        }
        if let Some(anchor) = wires.south {
            gadget = gadget.with_port(south_port(anchor));
        }
        Ok(gadget.with_base_predecessor_literals(self.thick_border_literals(wires)))
    }
}

/// The literals of `seals_border` that come before the given place.
spec fn borders_so_far(
    literals: Seq<CellLiteral>,
    w: int,
    h: int,
    anchors: WireAnchors,
    x: int,
    y: int,
) -> bool {
    &&& forall|i: int| 0 <= i < literals.len() ==> !(#[trigger] literals[i]).alive
    &&& forall|i: int, j: int| #![trigger literals[i], literals[j]]
        0 <= i < j < literals.len() ==> cell_less(literals[i].coord@, literals[j].coord@)
    &&& forall|i: int|
        0 <= i < literals.len() ==> at_border((#[trigger] literals[i]).coord@, w, h) && !at_opening(
            literals[i].coord@,
            w,
            h,
            anchors,
        ) && cell_less(literals[i].coord@, (x, y))
    &&& forall|cell: Cell| #[trigger]
        at_border(cell, w, h) && !at_opening(cell, w, h, anchors) && cell_less(cell, (x, y)) ==> exists|i: int|
            0 <= i < literals.len() && (#[trigger] literals[i]).coord@ == cell
}

proof fn lemma_border_step(
    before: Seq<CellLiteral>,
    after: Seq<CellLiteral>,
    w: int,
    h: int,
    anchors: WireAnchors,
    x: int,
    y: int,
    keep: bool,
)
    requires
        borders_so_far(before, w, h, anchors, x, y),
        keep == (at_border((x, y), w, h) && !at_opening((x, y), w, h, anchors)),
        !keep ==> after == before,
        keep ==> after.len() == before.len() + 1 && after.drop_last() == before && after.last().coord@ == (x, y)
            && !after.last().alive,
    ensures
        borders_so_far(after, w, h, anchors, x, y + 1),
{
    if keep {
        assert forall|i: int| 0 <= i < before.len() implies after[i] == #[trigger] before[i] by {
            assert(after.drop_last()[i] == after[i]);
        }
        assert forall|i: int| 0 <= i < after.len() implies !(#[trigger] after[i]).alive && at_border(
            after[i].coord@,
            w,
            h,
        ) && !at_opening(after[i].coord@, w, h, anchors) && cell_less(after[i].coord@, (x, y + 1)) by {
            if i < before.len() {
                assert(after[i] == before[i]);
            }
        }
        assert forall|i: int, j: int| #![trigger after[i], after[j]] 0 <= i < j < after.len() implies cell_less(
            after[i].coord@,
            after[j].coord@,
        ) by {
            assert(after[i] == before[i]);
            if j < before.len() {
                assert(after[j] == before[j]);
            }
        }
    }
    assert forall|cell: Cell| #[trigger]
        at_border(cell, w, h) && !at_opening(cell, w, h, anchors) && cell_less(cell, (x, y + 1)) implies exists|
        i: int,
    |
        0 <= i < after.len() && (#[trigger] after[i]).coord@ == cell by {
        if cell == (x, y) {
            assert(after[after.len() - 1].coord@ == cell);
        } else {
            assert(cell_less(cell, (x, y)));
            let i = choose|i: int| 0 <= i < before.len() && (#[trigger] before[i]).coord@ == cell;
            if keep {
                assert(after[i] == before[i]);
            } else {
                assert(after[i].coord@ == cell);
            }
        }
    }
}

/// Reads a pattern of the library, and makes its gadget.
pub fn load_published_gadget(files: &PatternFiles, spec: &PublishedSpec) -> (result: Result<
    (PublishedPattern, GadgetPattern),
    PatternError,
>)
    requires
        files.wf(),
    ensures
        is_load_result(result, files, spec@),
{
    let pattern: PublishedPattern = match PublishedPattern::from_csv_file(files, spec.path) {
        Ok(pattern) => pattern,
        Err(error) => {
            return Err(error);
        },
    };
    match pattern.to_gadget_pattern(spec.name) {
        Ok(gadget) => Ok((pattern, gadget)),
        Err(error) => Err(error),
    }
}

/// A pattern of the library with its gadget, or what is wrong with its file.
pub open spec fn is_load_result(
    result: Result<(PublishedPattern, GadgetPattern), PatternError>,
    files: &PatternFiles,
    spec: SpecModel,
) -> bool {
    match pattern_in_files(files, spec.path) {
        Err(failure) => result matches Err(error) && error@ == failure,
        Ok(rows) => match crate::grid::grid_of(alive_rows(rows)) {
            Err(reason) => result matches Err(error) && error@ == PatternFailure::NotAGrid(reason),
            Ok(_) => result matches Ok(loaded) && loaded.0.wf() && loaded.0@ == rows && is_gadget_of(
                &loaded.1,
                &loaded.0,
                spec.name,
            ),
        },
    }
}

/// A pattern, and the place of its upper left cell.
pub type Placement<'a> = (&'a PublishedPattern, isize, isize);

/// The value that a placed pattern has at a place: zero outside it.
pub open spec fn placed_value(placement: Placement, y: int, x: int) -> u8 {
    let rows = placement.0@;
    let dy = y - placement.2;
    let dx = x - placement.1;
    if 0 <= dy < rows.len() && 0 <= dx < rows[dy].len() {
        rows[dy][dx]
    } else {
        0
    }
}

/// `value` is the largest that a placed pattern has at a place.
pub open spec fn is_largest_value(value: u8, placements: Seq<Placement>, y: int, x: int) -> bool {
    &&& forall|k: int| 0 <= k < placements.len() ==> placed_value(#[trigger] placements[k], y, x) <= value
    &&& value == 0 || exists|k: int|
        0 <= k < placements.len() && placed_value(#[trigger] placements[k], y, x) == value
}

/// `left` and `top` are the least coordinates of the placed patterns, `right` and `bottom`
/// what they reach.
pub open spec fn is_box(placements: Seq<Placement>, left: int, top: int, right: int, bottom: int) -> bool {
    &&& forall|k: int|
        0 <= k < placements.len() ==> left <= (#[trigger] placements[k]).1 && top <= placements[k].2
            && placements[k].1 + placements[k].0.width <= right && placements[k].2 + placements[k].0.height
            <= bottom
    &&& exists|k: int| 0 <= k < placements.len() && (#[trigger] placements[k]).1 == left
    &&& exists|k: int| 0 <= k < placements.len() && (#[trigger] placements[k]).2 == top
    &&& exists|k: int|
        0 <= k < placements.len() && (#[trigger] placements[k]).1 + placements[k].0.width == right
    &&& exists|k: int|
        0 <= k < placements.len() && (#[trigger] placements[k]).2 + placements[k].0.height == bottom
}

/// The pattern of all placed patterns: it fills their common box, and has at each place
/// the largest value that one of them has there.
pub open spec fn is_composition(pattern: &PublishedPattern, placements: Seq<Placement>) -> bool {
    pattern.wf() && exists|left: int, top: int, right: int, bottom: int| #[trigger]
        is_box(placements, left, top, right, bottom) && pattern.width == right - left && pattern.height == bottom
            - top && forall|y: int, x: int|
            0 <= y < pattern.height && 0 <= x < pattern.width ==> is_largest_value(
                #[trigger] pattern@[y][x],
                placements,
                top + y,
                left + x,
            )
}

/// The ends of the placed patterns, and the size of their common box, are machine numbers.
pub open spec fn composable(placements: Seq<Placement>) -> bool {
    &&& forall|k: int|
        0 <= k < placements.len() ==> {
            let p = #[trigger] placements[k];
            &&& p.0.wf()
            &&& p.1 + p.0.width <= isize::MAX
            &&& p.2 + p.0.height <= isize::MAX
        }
    &&& forall|j: int, k: int|
        #![trigger placements[j], placements[k]]
        0 <= j < placements.len() && 0 <= k < placements.len() ==> {
            &&& placements[j].1 + placements[j].0.width - placements[k].1 <= isize::MAX
            &&& placements[j].2 + placements[j].0.height - placements[k].2 <= isize::MAX
        }
}

/// Whether placed patterns can be composed.
pub(crate) fn is_composable(placements: &[(&PublishedPattern, isize, isize)]) -> (result: bool)
    requires
        forall|k: int| 0 <= k < placements@.len() ==> (#[trigger] placements@[k]).0.wf(),
    ensures
        result == composable(placements@),
{
    if placements.len() == 0 {
        return true;
    }
    let ghost all = placements@;
    let mut left: i128 = placements[0].1 as i128;
    let mut top: i128 = placements[0].2 as i128;
    let mut right: i128 = placements[0].1 as i128 + placements[0].0.width as i128;
    let mut bottom: i128 = placements[0].2 as i128 + placements[0].0.height as i128;
    let mut k: usize = 1;
    while k < placements.len()
        invariant
            1 <= k <= placements@.len(),
            all == placements@,
            isize::MIN <= left <= isize::MAX,
            isize::MIN <= top <= isize::MAX,
            isize::MIN <= right <= isize::MAX + usize::MAX,
            isize::MIN <= bottom <= isize::MAX + usize::MAX,
            forall|j: int|
                0 <= j < k ==> left <= (#[trigger] all[j]).1 && top <= all[j].2 && all[j].1 + all[j].0.width
                    <= right && all[j].2 + all[j].0.height <= bottom,
            exists|j: int| 0 <= j < k && (#[trigger] all[j]).1 == left,
            exists|j: int| 0 <= j < k && (#[trigger] all[j]).2 == top,
            exists|j: int| 0 <= j < k && (#[trigger] all[j]).1 + all[j].0.width == right,
            exists|j: int| 0 <= j < k && (#[trigger] all[j]).2 + all[j].0.height == bottom,
        decreases placements.len() - k,
    {
        let ghost piece = all[k as int];
        let x: i128 = placements[k].1 as i128;
        let y: i128 = placements[k].2 as i128;
        let x_end: i128 = x + placements[k].0.width as i128;
        let y_end: i128 = y + placements[k].0.height as i128;
        assert(piece.1 == x && piece.2 == y);
        if x < left {
            left = x;
        }
        if y < top {
            top = y;
        }
        if x_end > right {
            right = x_end;
        }
        if y_end > bottom {
            bottom = y_end;
        }
        k += 1;
    }
    let most: i128 = isize::MAX as i128;
    let result: bool = right <= most && bottom <= most && right - left <= most && bottom - top <= most;
    proof {
        let l = choose|j: int| 0 <= j < all.len() && (#[trigger] all[j]).1 == left;
        let t = choose|j: int| 0 <= j < all.len() && (#[trigger] all[j]).2 == top;
        let r = choose|j: int| 0 <= j < all.len() && (#[trigger] all[j]).1 + all[j].0.width == right;
        let b = choose|j: int| 0 <= j < all.len() && (#[trigger] all[j]).2 + all[j].0.height == bottom;
        if composable(all) {
            assert(all[r].1 + all[r].0.width - all[l].1 <= isize::MAX);
            assert(all[b].2 + all[b].0.height - all[t].2 <= isize::MAX);
        }
    }
    result
}

/// The place lies inside the common box of placed patterns.
spec fn in_box(placements: Seq<Placement>, y: int, x: int) -> bool {
    exists|left: int, top: int, right: int, bottom: int| #[trigger]
        is_box(placements, left, top, right, bottom) && left <= x < right && top <= y < bottom
}

/// A place in the common box can be reached from the corner of each placed pattern.
proof fn lemma_in_reach(placements: Seq<Placement>, y: int, x: int, k: int)
    requires
        composable(placements),
        in_box(placements, y, x),
        0 <= k < placements.len(),
    ensures
        placements[k].0.wf(),
        placements[k].0.width <= isize::MAX,
        placements[k].0.height <= isize::MAX,
        isize::MIN <= x - placements[k].1 <= isize::MAX,
        isize::MIN <= y - placements[k].2 <= isize::MAX,
{
    let (left, top, right, bottom) = choose|left: int, top: int, right: int, bottom: int| #[trigger]
        is_box(placements, left, top, right, bottom) && left <= x < right && top <= y < bottom;
    let p = placements[k];
    let l = choose|j: int| 0 <= j < placements.len() && (#[trigger] placements[j]).1 == left;
    let t = choose|j: int| 0 <= j < placements.len() && (#[trigger] placements[j]).2 == top;
    let r = choose|j: int|
        0 <= j < placements.len() && (#[trigger] placements[j]).1 + placements[j].0.width == right;
    let b = choose|j: int|
        0 <= j < placements.len() && (#[trigger] placements[j]).2 + placements[j].0.height == bottom;
    assert(p.1 + p.0.width - placements[k].1 <= isize::MAX);
    assert(placements[r].1 + placements[r].0.width - p.1 <= isize::MAX);
    assert(placements[b].2 + placements[b].0.height - p.2 <= isize::MAX);
    assert(p.1 + p.0.width - placements[l].1 <= isize::MAX);
    assert(p.2 + p.0.height - placements[t].2 <= isize::MAX);
}

fn placed_cell(placement: &Placement, y: isize, x: isize) -> (value: u8)
    requires
        placement.0.wf(),
        placement.0.width <= isize::MAX,
        placement.0.height <= isize::MAX,
        isize::MIN <= x - placement.1 <= isize::MAX,
        isize::MIN <= y - placement.2 <= isize::MAX,
    ensures
        value == placed_value(*placement, y as int, x as int),
{
    let dy: isize = y - placement.2;
    let dx: isize = x - placement.1;
    if dy < 0 || dx < 0 {
        return 0;
    }
    assert(placement.0@.len() == placement.0.height);
    if dy as usize >= placement.0.height || dx as usize >= placement.0.width {
        if (dy as usize) < placement.0.height {
            assert(placement.0@[dy as int].len() == placement.0.width);
        }
        return 0;
    }
    assert(placement.0@[dy as int].len() == placement.0.width);
    placement.0.cell(dy as usize, dx as usize)
}

/// The pattern of all placed patterns.
pub fn compose_published_patterns(placements: &[(&PublishedPattern, isize, isize)]) -> (result: Result<
    PublishedPattern,
    PatternError,
>)
    requires
        composable(placements@),
    ensures
        placements@.len() == 0 ==> (result matches Err(error) && error@ == PatternFailure::EmptyComposition),
        placements@.len() > 0 ==> (result matches Ok(pattern) && is_composition(&pattern, placements@)
            && pattern.width <= isize::MAX && pattern.height <= isize::MAX),
{
    if placements.len() == 0 {
        return Err(PatternError::EmptyComposition);
    }
    let ghost all = placements@;
    assert(all[0].0.wf());
    let mut left: isize = placements[0].1;
    let mut top: isize = placements[0].2;
    let mut right: isize = placements[0].1 + placements[0].0.width as isize;
    let mut bottom: isize = placements[0].2 + placements[0].0.height as isize;
    let mut k: usize = 1;
    while k < placements.len()
        invariant
            1 <= k <= placements@.len(),
            all == placements@,
            composable(all),
            forall|j: int|
                0 <= j < k ==> left <= (#[trigger] all[j]).1 && top <= all[j].2 && all[j].1 + all[j].0.width
                    <= right && all[j].2 + all[j].0.height <= bottom,
            exists|j: int| 0 <= j < k && (#[trigger] all[j]).1 == left,
            exists|j: int| 0 <= j < k && (#[trigger] all[j]).2 == top,
            exists|j: int| 0 <= j < k && (#[trigger] all[j]).1 + all[j].0.width == right,
            exists|j: int| 0 <= j < k && (#[trigger] all[j]).2 + all[j].0.height == bottom,
        decreases placements.len() - k,
    {
        let ghost piece = all[k as int];
        let x: isize = placements[k].1;
        let y: isize = placements[k].2;
        let x_end: isize = x + placements[k].0.width as isize;
        let y_end: isize = y + placements[k].0.height as isize;
        assert(piece.1 == x && piece.2 == y);
        if x < left {
            left = x;
        }
        if y < top {
            top = y;
        }
        if x_end > right {
            right = x_end;
        }
        if y_end > bottom {
            bottom = y_end;
        }
        k += 1;
    }
    assert(is_box(all, left as int, top as int, right as int, bottom as int));
    proof {
        let l = choose|j: int| 0 <= j < all.len() && (#[trigger] all[j]).1 == left;
        let t = choose|j: int| 0 <= j < all.len() && (#[trigger] all[j]).2 == top;
        let r = choose|j: int| 0 <= j < all.len() && (#[trigger] all[j]).1 + all[j].0.width == right;
        let b = choose|j: int| 0 <= j < all.len() && (#[trigger] all[j]).2 + all[j].0.height == bottom;
        assert(all[r].1 + all[r].0.width - all[l].1 <= isize::MAX);
        assert(all[b].2 + all[b].0.height - all[t].2 <= isize::MAX);
        assert(left <= right && top <= bottom);
    }
    let width: usize = (right - left) as usize;
    let height: usize = (bottom - top) as usize;
    let mut cells: Vec<Vec<u8>> = Vec::new();
    let mut y: usize = 0;
    while y < height
        invariant
            y <= height,
            all == placements@,
            composable(all),
            is_box(all, left as int, top as int, right as int, bottom as int),
            width == right - left,
            height == bottom - top,
            cells@.len() == y,
            forall|b: int| 0 <= b < y ==> (#[trigger] cells@[b])@.len() == width,
            forall|b: int, a: int|
                0 <= b < y && 0 <= a < width ==> is_largest_value(
                    #[trigger] cells@[b]@[a],
                    all,
                    top + b,
                    left + a,
                ),
        decreases height - y,
    {
        let mut row: Vec<u8> = Vec::new();
        let mut x: usize = 0;
        while x < width
            invariant
                x <= width,
                y < height,
                all == placements@,
                composable(all),
                is_box(all, left as int, top as int, right as int, bottom as int),
                width == right - left,
                height == bottom - top,
                row@.len() == x,
                forall|a: int|
                    0 <= a < x ==> is_largest_value(#[trigger] row@[a], all, top + y, left + a),
            decreases width - x,
        {
            assert(in_box(all, top + y, left + x));
            let value: u8 = largest_placed(placements, top + y as isize, left + x as isize);
            row.push(value);
            x += 1;
        }
        cells.push(row);
        y += 1;
    }
    let pattern: PublishedPattern = PublishedPattern { width, height, cells };
    proof {
        let rows = pattern@;
        assert forall|b: int| 0 <= b < height implies (#[trigger] rows[b]).len() == width by {
            assert(rows[b] == cells@[b]@);
        }
        assert forall|b: int, a: int| 0 <= b < pattern.height && 0 <= a < pattern.width implies is_largest_value(
            #[trigger] pattern@[b][a],
            all,
            top + b,
            left + a,
        ) by {
            assert(pattern@[b] == cells@[b]@);
            assert(is_largest_value(cells@[b]@[a], all, top + b, left + a));
        }
    }
    Ok(pattern)
}

fn largest_placed(placements: &[(&PublishedPattern, isize, isize)], y: isize, x: isize) -> (value: u8)
    requires
        composable(placements@),
        in_box(placements@, y as int, x as int),
    ensures
        is_largest_value(value, placements@, y as int, x as int),
{
    let ghost all = placements@;
    let mut value: u8 = 0;
    let mut k: usize = 0;
    while k < placements.len()
        invariant
            k <= placements@.len(),
            all == placements@,
            composable(all),
            in_box(all, y as int, x as int),
            forall|j: int| 0 <= j < k ==> placed_value(#[trigger] all[j], y as int, x as int) <= value,
            value == 0 || exists|j: int|
                0 <= j < k && placed_value(#[trigger] all[j], y as int, x as int) == value,
        decreases placements.len() - k,
    {
        let ghost piece = all[k as int];
        proof {
            lemma_in_reach(all, y as int, x as int, k as int);
        }
        let seen: u8 = placed_cell(&placements[k], y, x);
        if seen > value {
            value = seen;
        }
        k += 1;
    }
    value
}

/// A placement is another one, moved.
pub open spec fn is_moved_placement(moved: Placement, placement: Placement, dx: int, dy: int) -> bool {
    moved.0 == placement.0 && moved.1 == placement.1 + dx && moved.2 == placement.2 + dy
}

/// The placement is one of the others, moved.
spec fn has_source(moved: Placement, placements: Seq<Placement>, dx: int, dy: int) -> bool {
    exists|j: int| 0 <= j < placements.len() && #[trigger] is_moved_placement(moved, placements[j], dx, dy)
}

/// Each placement is one of the others, moved.
spec fn all_moved(moved: Seq<Placement>, placements: Seq<Placement>, dx: int, dy: int) -> bool {
    forall|k: int| 0 <= k < moved.len() ==> #[trigger] has_source(moved[k], placements, dx, dy)
}

proof fn lemma_boxes_move(
    placements: Seq<Placement>,
    moved: Seq<Placement>,
    dx: int,
    dy: int,
    a: (int, int, int, int),
    b: (int, int, int, int),
)
    requires
        all_moved(moved, placements, dx, dy),
        is_box(placements, a.0, a.1, a.2, a.3),
        is_box(moved, b.0, b.1, b.2, b.3),
    ensures
        b.0 >= a.0 + dx,
        b.1 >= a.1 + dy,
        b.2 <= a.2 + dx,
        b.3 <= a.3 + dy,
{
    let l = choose|k: int| 0 <= k < moved.len() && (#[trigger] moved[k]).1 == b.0;
    let t = choose|k: int| 0 <= k < moved.len() && (#[trigger] moved[k]).2 == b.1;
    let r = choose|k: int| 0 <= k < moved.len() && (#[trigger] moved[k]).1 + moved[k].0.width == b.2;
    let d = choose|k: int| 0 <= k < moved.len() && (#[trigger] moved[k]).2 + moved[k].0.height == b.3;
    assert(has_source(moved[l], placements, dx, dy));
    let l2 = choose|j: int| 0 <= j < placements.len() && #[trigger] is_moved_placement(moved[l], placements[j], dx, dy);
    assert(has_source(moved[t], placements, dx, dy));
    let t2 = choose|j: int| 0 <= j < placements.len() && #[trigger] is_moved_placement(moved[t], placements[j], dx, dy);
    assert(has_source(moved[r], placements, dx, dy));
    let r2 = choose|j: int| 0 <= j < placements.len() && #[trigger] is_moved_placement(moved[r], placements[j], dx, dy);
    assert(has_source(moved[d], placements, dx, dy));
    let d2 = choose|j: int| 0 <= j < placements.len() && #[trigger] is_moved_placement(moved[d], placements[j], dx, dy);
    assert(a.0 <= placements[l2].1 && a.1 <= placements[t2].2);
    assert(placements[r2].1 + placements[r2].0.width <= a.2);
    assert(placements[d2].2 + placements[d2].0.height <= a.3);
}

proof fn lemma_largest_moves(
    placements: Seq<Placement>,
    moved: Seq<Placement>,
    dx: int,
    dy: int,
    y: int,
    x: int,
    a: u8,
    b: u8,
)
    requires
        all_moved(moved, placements, dx, dy),
        is_largest_value(a, placements, y, x),
        is_largest_value(b, moved, y + dy, x + dx),
    ensures
        b <= a,
{
    if b > 0 {
        let k = choose|k: int| 0 <= k < moved.len() && placed_value(#[trigger] moved[k], y + dy, x + dx) == b;
        assert(has_source(moved[k], placements, dx, dy));
        let j = choose|j: int| 0 <= j < placements.len() && #[trigger] is_moved_placement(moved[k], placements[j], dx, dy);
        assert(placed_value(placements[j], y, x) == b);
    }
}

proof fn lemma_same_composition(
    placements: Seq<Placement>,
    moved: Seq<Placement>,
    dx: int,
    dy: int,
    a: &PublishedPattern,
    b: &PublishedPattern,
)
    requires
        is_composition(a, placements),
        is_composition(b, moved),
        all_moved(moved, placements, dx, dy),
        all_moved(placements, moved, -dx, -dy),
    ensures
        a.width == b.width,
        a.height == b.height,
        a@ == b@,
{
    let (l, t, r, d) = choose|left: int, top: int, right: int, bottom: int| #[trigger]
        is_box(placements, left, top, right, bottom) && a.width == right - left && a.height == bottom - top && forall|
            y: int,
            x: int,
        |
            0 <= y < a.height && 0 <= x < a.width ==> is_largest_value(#[trigger] a@[y][x], placements, top + y, left + x);
    let (l2, t2, r2, d2) = choose|left: int, top: int, right: int, bottom: int| #[trigger]
        is_box(moved, left, top, right, bottom) && b.width == right - left && b.height == bottom - top && forall|
            y: int,
            x: int,
        |
            0 <= y < b.height && 0 <= x < b.width ==> is_largest_value(#[trigger] b@[y][x], moved, top + y, left + x);
    lemma_boxes_move(placements, moved, dx, dy, (l, t, r, d), (l2, t2, r2, d2));
    lemma_boxes_move(moved, placements, -dx, -dy, (l2, t2, r2, d2), (l, t, r, d));
    assert forall|y: int| 0 <= y < a.height implies #[trigger] a@[y] == b@[y] by {
        assert(a@[y].len() == a.width);
        assert(b@[y].len() == b.width);
        assert forall|x: int| 0 <= x < a.width implies #[trigger] a@[y][x] == b@[y][x] by {
            assert(is_largest_value(a@[y][x], placements, t + y, l + x));
            assert(is_largest_value(b@[y][x], moved, t2 + y, l2 + x));
            lemma_largest_moves(placements, moved, dx, dy, t + y, l + x, a@[y][x], b@[y][x]);
            lemma_largest_moves(moved, placements, -dx, -dy, t2 + y, l2 + x, b@[y][x], a@[y][x]);
        }
        assert(a@[y] =~= b@[y]);
    }
    assert(a@ =~= b@);
}

/// The order in which placed patterns are listed, and how often each is, does not matter: the
/// composed patterns are the same.
pub proof fn law_composition_order(
    placements: Seq<Placement>,
    others: Seq<Placement>,
    a: &PublishedPattern,
    b: &PublishedPattern,
)
    requires
        forall|p: Placement| #[trigger] placements.contains(p) <==> others.contains(p),
        is_composition(a, placements),
        is_composition(b, others),
    ensures
        a.width == b.width,
        a.height == b.height,
        a@ == b@,
{
    assert forall|k: int| 0 <= k < others.len() implies #[trigger] has_source(others[k], placements, 0, 0) by {
        assert(others.contains(others[k]));
        assert(placements.contains(others[k]));
        let j = choose|j: int| 0 <= j < placements.len() && placements[j] == others[k];
        assert(is_moved_placement(others[k], placements[j], 0, 0));
    }
    assert forall|k: int| 0 <= k < placements.len() implies #[trigger] has_source(placements[k], others, 0, 0) by {
        assert(placements.contains(placements[k]));
        assert(others.contains(placements[k]));
        let j = choose|j: int| 0 <= j < others.len() && others[j] == placements[k];
        assert(is_moved_placement(placements[k], others[j], 0, 0));
    }
    lemma_same_composition(placements, others, 0, 0, a, b);
}

/// Moving all placed patterns by the same distance leaves the composed pattern as it is.
pub proof fn law_composition_moves(
    placements: Seq<Placement>,
    moved: Seq<Placement>,
    dx: int,
    dy: int,
    a: &PublishedPattern,
    b: &PublishedPattern,
)
    requires
        moved.len() == placements.len(),
        forall|k: int|
            0 <= k < moved.len() ==> is_moved_placement(#[trigger] moved[k], placements[k], dx, dy),
        is_composition(a, placements),
        is_composition(b, moved),
    ensures
        a.width == b.width,
        a.height == b.height,
        a@ == b@,
{
    assert forall|k: int| 0 <= k < moved.len() implies #[trigger] has_source(moved[k], placements, dx, dy) by {
        assert(is_moved_placement(moved[k], placements[k], dx, dy));
    }
    assert forall|k: int| 0 <= k < placements.len() implies #[trigger] has_source(placements[k], moved, -dx, -dy) by {
        assert(is_moved_placement(moved[k], placements[k], dx, dy));
        assert(is_moved_placement(placements[k], moved[k], -dx, -dy));
    }
    lemma_same_composition(placements, moved, dx, dy, a, b);
}

/// One placed pattern alone composes to itself, wherever it lies.
pub proof fn law_composition_single(placements: Seq<Placement>, pattern: &PublishedPattern)
    requires
        placements.len() == 1,
        placements[0].0.wf(),
        is_composition(pattern, placements),
    ensures
        pattern.width == placements[0].0.width,
        pattern.height == placements[0].0.height,
        pattern@ == placements[0].0@,
{
    let p = placements[0];
    let (l, t, r, d) = choose|left: int, top: int, right: int, bottom: int| #[trigger]
        is_box(placements, left, top, right, bottom) && pattern.width == right - left && pattern.height == bottom - top
            && forall|y: int, x: int|
            0 <= y < pattern.height && 0 <= x < pattern.width ==> is_largest_value(
                #[trigger] pattern@[y][x],
                placements,
                top + y,
                left + x,
            );
    assert(l == p.1 && t == p.2 && r == p.1 + p.0.width && d == p.2 + p.0.height);
    assert forall|y: int| 0 <= y < pattern.height implies #[trigger] pattern@[y] == p.0@[y] by {
        assert(pattern@[y].len() == pattern.width);
        assert(p.0@[y].len() == p.0.width);
        assert forall|x: int| 0 <= x < pattern.width implies #[trigger] pattern@[y][x] == p.0@[y][x] by {
            assert(is_largest_value(pattern@[y][x], placements, t + y, l + x));
            assert(placed_value(placements[0], t + y, l + x) == p.0@[y][x]);
        }
        assert(pattern@[y] =~= p.0@[y]);
    }
    assert(pattern@ =~= p.0@);
}
/// A line is skipped: it is blank or a comment.
pub open spec fn is_skipped(line: Seq<char>) -> bool {
    scan::trim_end(line).len() == 0 || scan::trim_end(line)[0] == '%'
}

/// The lines among the first `k` that are not skipped.
pub open spec fn kept_lines(text: Seq<Seq<char>>, k: nat) -> Seq<Seq<char>>
    decreases k,
{
    if k == 0 {
        Seq::empty()
    } else if is_skipped(text[k - 1]) {
        kept_lines(text, (k - 1) as nat)
    } else {
        kept_lines(text, (k - 1) as nat).push(text[k - 1])
    }
}

/// Rows are read from lines alone that come before them.
proof fn lemma_rows_local(a: Seq<Seq<char>>, b: Seq<Seq<char>>, k: nat)
    requires
        k <= a.len(),
        k <= b.len(),
        forall|i: int| 0 <= i < k ==> #[trigger] a[i] == b[i],
    ensures
        rows_up_to(a, k) == rows_up_to(b, k),
        kept_lines(a, k) == kept_lines(b, k),
    decreases k,
{
    if k > 0 {
        lemma_rows_local(a, b, (k - 1) as nat);
        assert(a[k - 1] == b[k - 1]);
    }
}

/// The rows of a text are those of its lines that are not skipped.
proof fn lemma_rows_kept(text: Seq<Seq<char>>, k: nat)
    requires
        k <= text.len(),
    ensures
        rows_up_to(text, k) == rows_up_to(kept_lines(text, k), kept_lines(text, k).len()),
    decreases k,
{
    if k > 0 {
        let earlier = kept_lines(text, (k - 1) as nat);
        let kept = kept_lines(text, k);
        lemma_rows_kept(text, (k - 1) as nat);
        if !is_skipped(text[k - 1]) {
            assert(kept == earlier.push(text[k - 1]));
            lemma_rows_local(kept, earlier, earlier.len());
            assert(kept[earlier.len() as int] == text[k - 1]);
        }
    }
}

/// Blank lines and comments do not matter: texts whose other lines are the same denote the same
/// pattern, or fail in the same way.
pub proof fn law_skipped_lines(a: Seq<char>, b: Seq<char>)
    requires
        kept_lines(scan::lines(a), scan::lines(a).len()) == kept_lines(scan::lines(b), scan::lines(b).len()),
    ensures
        pattern_of_text(a) == pattern_of_text(b),
{
    lemma_rows_kept(scan::lines(a), scan::lines(a).len());
    lemma_rows_kept(scan::lines(b), scan::lines(b).len());
}

proof fn lemma_kept_inserted(text: Seq<Seq<char>>, i: int, line: Seq<char>, k: nat)
    requires
        0 <= i <= k <= text.len(),
        is_skipped(line),
    ensures
        kept_lines(text.insert(i, line), k + 1) == kept_lines(text, k),
    decreases k,
{
    let more = text.insert(i, line);
    if k == i {
        assert(more[i] == line);
        lemma_rows_local(more, text, k);
    } else {
        lemma_kept_inserted(text, i, line, (k - 1) as nat);
        assert(more[k as int] == text[k - 1]);
    }
}

/// A blank line or a comment can be added anywhere, or taken away: the text denotes the same
/// pattern, or fails in the same way.
pub proof fn law_line_skipped(a: Seq<char>, b: Seq<char>, i: int, line: Seq<char>)
    requires
        0 <= i <= scan::lines(a).len(),
        is_skipped(line),
        scan::lines(b) == scan::lines(a).insert(i, line),
    ensures
        pattern_of_text(a) == pattern_of_text(b),
{
    lemma_kept_inserted(scan::lines(a), i, line, scan::lines(a).len());
    law_skipped_lines(a, b);
}

proof fn lemma_word_values_count(row: Seq<Seq<char>>, k: nat)
    ensures
        word_values(row, k) matches Some(values) ==> values.len() == k,
    decreases k,
{
    if k > 0 {
        lemma_word_values_count(row, (k - 1) as nat);
    }
}

proof fn lemma_digit_values_count(row: Seq<char>, k: nat)
    ensures
        digit_values(row, k) matches Ok(values) ==> values.len() == k,
    decreases k,
{
    if k > 0 {
        lemma_digit_values_count(row, (k - 1) as nat);
    }
}

proof fn lemma_trim_end_dark(text: Seq<char>)
    ensures
        scan::trim_end(text).len() > 0 ==> !scan::white(scan::trim_end(text).last()),
    decreases text.len(),
{
    if text.len() > 0 && scan::white(text.last()) {
        lemma_trim_end_dark(text.drop_last());
    }
}

proof fn lemma_rows_filled(text: Seq<Seq<char>>, k: nat)
    ensures
        rows_up_to(text, k) matches Ok(rows) ==> forall|y: int| 0 <= y < rows.len() ==> (#[trigger] rows[y]).len() > 0,
    decreases k,
{
    if k > 0 {
        lemma_rows_filled(text, (k - 1) as nat);
        let line = scan::trim_end(text[k - 1]);
        lemma_trim_end_dark(text[k - 1]);
        if line.len() > 0 {
            lemma_word_values_count(scan::words(line), scan::words(line).len());
            lemma_digit_values_count(line, line.len());
            assert(scan::word_scan(line).1.len() > 0);
            assert(scan::words(line).len() > 0);
        }
    }
}

/// A pattern that a text denotes has rows, its rows hold values, and all hold the same number.
pub proof fn law_pattern_filled(text: Seq<char>)
    ensures
        pattern_of_text(text) matches Ok(rows) ==> rows.len() > 0 && rows[0].len() > 0 && same_lengths(rows),
{
    lemma_rows_filled(scan::lines(text), scan::lines(text).len());
}

} // verus!
