//! The DIMACS format for formulas in conjunctive normal form.

use crate::circuit::{Clause, CnfFormula, CnfModel, Literal, LiteralModel};
use crate::scan::{parse_i32, parse_unsigned, split_lines, split_words, string_of, trim};
use crate::text::{chars_of, push_decimal, push_usize};
use crate::scan;
use crate::text;
use vstd::prelude::*;

verus! {

/// What is wrong with a DIMACS text, over texts.
pub enum DimacsFailure {
    UnsupportedHeader(Seq<char>),
    InvalidVariableCount(Seq<char>),
    InvalidClauseCount(Seq<char>),
    InvalidLiteral(Seq<char>),
    MissingHeader,
    UnterminatedClause,
    ClauseCount(nat, nat),
    VariableRange(nat, nat),
}

/// What is wrong with a DIMACS text.
#[derive(Debug)]
pub enum DimacsError {
    /// The header line does not read `p cnf` and two counts.
    UnsupportedHeader { line: String },
    /// The header's count of variables is no number.
    InvalidVariableCount { line: String },
    /// The header's count of clauses is no number.
    InvalidClauseCount { line: String },
    /// A word of a clause is no number.
    InvalidLiteral { token: String },
    /// There is no header line.
    MissingHeader,
    /// The text ends within a clause.
    UnterminatedClause,
    /// There are other than the declared number of clauses.
    ClauseCount { expected: usize, actual: usize },
    /// A variable exceeds the declared number of variables.
    VariableRange { expected: usize, actual: usize },
}

impl View for DimacsError {
    type V = DimacsFailure;

    open spec fn view(&self) -> DimacsFailure {
        match *self {
            DimacsError::UnsupportedHeader { line } => DimacsFailure::UnsupportedHeader(line@),
            DimacsError::InvalidVariableCount { line } => DimacsFailure::InvalidVariableCount(line@),
            DimacsError::InvalidClauseCount { line } => DimacsFailure::InvalidClauseCount(line@),
            DimacsError::InvalidLiteral { token } => DimacsFailure::InvalidLiteral(token@),
            DimacsError::MissingHeader => DimacsFailure::MissingHeader,
            DimacsError::UnterminatedClause => DimacsFailure::UnterminatedClause,
            DimacsError::ClauseCount { expected, actual } => DimacsFailure::ClauseCount(
                expected as nat,
                actual as nat,
            ),
            DimacsError::VariableRange { expected, actual } => DimacsFailure::VariableRange(
                expected as nat,
                actual as nat,
            ),
        }
    }
}

/// The message of a failure.
pub open spec fn failure_text(failure: DimacsFailure) -> Seq<char> {
    match failure {
        DimacsFailure::UnsupportedHeader(line) => "Unsupported DIMACS header '"@ + line + "'"@,
        DimacsFailure::InvalidVariableCount(line) => "Invalid variable count in '"@ + line + "'"@,
        DimacsFailure::InvalidClauseCount(line) => "Invalid clause count in '"@ + line + "'"@,
        DimacsFailure::InvalidLiteral(token) => "Invalid DIMACS literal '"@ + token + "'"@,
        DimacsFailure::MissingHeader => "DIMACS input is missing a 'p cnf' header"@,
        DimacsFailure::UnterminatedClause => "DIMACS input ended before a clause-terminating 0"@,
        DimacsFailure::ClauseCount(expected, actual) => "DIMACS declared "@ + text::decimal(expected)
            + " clauses but parsed "@ + text::decimal(actual),
        DimacsFailure::VariableRange(expected, actual) => "DIMACS declared "@ + text::decimal(expected)
            + " variables but used variable "@ + text::decimal(actual),
    }
}

impl DimacsError {
    /// The message of the error.
    pub fn to_string(&self) -> (message: String)
        ensures
            message@ == failure_text(self@),
    {
        match self {
            DimacsError::UnsupportedHeader { line } => {
                let mut out: String = "Unsupported DIMACS header '".to_owned();
                out.append(line.as_str());
                out.append("'");
                out
            },
            DimacsError::InvalidVariableCount { line } => {
                let mut out: String = "Invalid variable count in '".to_owned();
                out.append(line.as_str());
                out.append("'");
                out
            },
            DimacsError::InvalidClauseCount { line } => {
                let mut out: String = "Invalid clause count in '".to_owned();
                out.append(line.as_str());
                out.append("'");
                out
            },
            DimacsError::InvalidLiteral { token } => {
                let mut out: String = "Invalid DIMACS literal '".to_owned();
                out.append(token.as_str());
                out.append("'");
                out
            },
            DimacsError::MissingHeader => "DIMACS input is missing a 'p cnf' header".to_owned(),
            DimacsError::UnterminatedClause => "DIMACS input ended before a clause-terminating 0".to_owned(),
            DimacsError::ClauseCount { expected, actual } => {
                let mut out: String = "DIMACS declared ".to_owned();
                push_usize(&mut out, *expected);
                out.append(" clauses but parsed ");
                push_usize(&mut out, *actual);
                out
            },
            DimacsError::VariableRange { expected, actual } => {
                let mut out: String = "DIMACS declared ".to_owned();
                push_usize(&mut out, *expected);
                out.append(" variables but used variable ");
                push_usize(&mut out, *actual);
                out
            },
        }
    }
}

/// What has been read: the header's two counts, the finished clauses, and the open one.
pub struct DimacsState {
    pub header: Option<(nat, nat)>,
    pub clauses: Seq<Seq<int>>,
    pub current: Seq<int>,
}

/// Reads the first `k` words of a clause line.
pub open spec fn read_words(state: DimacsState, line: Seq<Seq<char>>, k: nat) -> Result<
    DimacsState,
    DimacsFailure,
>
    decreases k,
{
    if k == 0 {
        Ok(state)
    } else {
        match read_words(state, line, (k - 1) as nat) {
            Err(failure) => Err(failure),
            Ok(earlier) => match scan::i32_value(line[k - 1]) {
                None => Err(DimacsFailure::InvalidLiteral(line[k - 1])),
                Some(value) => if value == 0 {
                    Ok(
                        DimacsState {
                            header: earlier.header,
                            clauses: earlier.clauses.push(earlier.current),
                            current: Seq::empty(),
                        },
                    )
                } else {
                    Ok(
                        DimacsState {
                            header: earlier.header,
                            clauses: earlier.clauses,
                            current: earlier.current.push(value),
                        },
                    )
                },
            },
        }
    }
}

/// Reads a header line.
pub open spec fn read_header(state: DimacsState, line: Seq<char>) -> Result<DimacsState, DimacsFailure> {
    let parts = scan::words(line);
    if parts.len() != 4 || parts[1] != "cnf"@ {
        Err(DimacsFailure::UnsupportedHeader(scan::trimmed(line)))
    } else {
        match (scan::unsigned_value(parts[2], usize::MAX as nat), scan::unsigned_value(parts[3], usize::MAX as nat)) {
            (None, _) => Err(DimacsFailure::InvalidVariableCount(scan::trimmed(line))),
            (_, None) => Err(DimacsFailure::InvalidClauseCount(scan::trimmed(line))),
            (Some(variables), Some(clauses)) => Ok(
                DimacsState {
                    header: Some((variables, clauses)),
                    clauses: state.clauses,
                    current: state.current,
                },
            ),
        }
    }
}

/// Reads a line: blank lines and comments are skipped.
pub open spec fn read_line(state: DimacsState, line: Seq<char>) -> Result<DimacsState, DimacsFailure> {
    let content = scan::trimmed(line);
    if content.len() == 0 || content[0] == 'c' {
        Ok(state)
    } else if content[0] == 'p' {
        read_header(state, line)
    } else {
        read_words(state, scan::words(line), scan::words(line).len())
    }
}

/// Reads the first `k` lines.
pub open spec fn read_lines(text: Seq<Seq<char>>, k: nat) -> Result<DimacsState, DimacsFailure>
    decreases k,
{
    if k == 0 {
        Ok(DimacsState { header: None, clauses: Seq::empty(), current: Seq::empty() })
    } else {
        match read_lines(text, (k - 1) as nat) {
            Err(failure) => Err(failure),
            Ok(earlier) => read_line(earlier, text[k - 1]),
        }
    }
}

/// The absolute value.
pub open spec fn magnitude_of(value: int) -> nat {
    if value < 0 {
        (-value) as nat
    } else {
        value as nat
    }
}

/// `n` is the largest variable of the clauses, and zero where they hold none.
pub open spec fn is_largest_variable(n: nat, clauses: Seq<Seq<int>>) -> bool {
    &&& forall|i: int, j: int|
        0 <= i < clauses.len() && 0 <= j < clauses[i].len() ==> magnitude_of(#[trigger] clauses[i][j]) <= n
    &&& n == 0 || exists|i: int, j: int|
        0 <= i < clauses.len() && 0 <= j < clauses[i].len() && magnitude_of(#[trigger] clauses[i][j]) == n
}

/// What a DIMACS text denotes: its clauses as rows of signed variable numbers.
pub open spec fn dimacs_clauses(text: Seq<char>) -> Result<Seq<Seq<int>>, DimacsFailure> {
    match read_lines(scan::lines(text), scan::lines(text).len()) {
        Err(failure) => Err(failure),
        Ok(state) => match state.header {
            None => Err(DimacsFailure::MissingHeader),
            Some((variables, clauses)) => if state.current.len() > 0 {
                Err(DimacsFailure::UnterminatedClause)
            } else if state.clauses.len() != clauses {
                Err(DimacsFailure::ClauseCount(clauses, state.clauses.len()))
            } else {
                let largest = choose|n: nat| is_largest_variable(n, state.clauses);
                if largest > variables {
                    Err(DimacsFailure::VariableRange(variables, largest))
                } else {
                    Ok(state.clauses)
                }
            },
        },
    }
}

/// The literal that a signed variable number denotes.
pub open spec fn literal_of(value: int) -> LiteralModel {
    LiteralModel { variable: "x"@ + text::decimal(magnitude_of(value)), negated: value < 0 }
}

/// The formula that rows of signed variable numbers denote.
pub open spec fn formula_of(clauses: Seq<Seq<int>>) -> CnfModel {
    Seq::new(clauses.len(), |i: int| Seq::new(clauses[i].len(), |j: int| literal_of(clauses[i][j])))
}

/// The numbers, over integers.
pub open spec fn numbers(values: Seq<i32>) -> Seq<int> {
    Seq::new(values.len(), |i: int| values[i] as int)
}

spec fn number_rows(rows: Seq<Vec<i32>>) -> Seq<Seq<int>> {
    Seq::new(rows.len(), |i: int| numbers(rows[i]@))
}

struct DimacsReader {
    header: Option<(usize, usize)>,
    clauses: Vec<Vec<i32>>,
    current: Vec<i32>,
}

impl View for DimacsReader {
    type V = DimacsState;

    closed spec fn view(&self) -> DimacsState {
        DimacsState {
            header: match self.header {
                Some((variables, clauses)) => Some((variables as nat, clauses as nat)),
                None => None,
            },
            clauses: number_rows(self.clauses@),
            current: numbers(self.current@),
        }
    }
}

impl DimacsReader {
    fn read_words(&mut self, line: &Vec<Vec<char>>) -> (result: Result<(), DimacsError>)
        ensures
            match result {
                Ok(_) => read_words(old(self)@, scan::rows_of(line@), line@.len()) == Ok::<_, DimacsFailure>(
                    final(self)@,
                ),
                Err(error) => read_words(old(self)@, scan::rows_of(line@), line@.len()) == Err::<DimacsState, _>(
                    error@,
                ),
            },
    {
        let ghost start = self@;
        let ghost rows = scan::rows_of(line@);
        let mut k: usize = 0;
        while k < line.len()
            invariant
                k <= line@.len(),
                start == old(self)@,
                rows == scan::rows_of(line@),
                read_words(start, rows, k as nat) == Ok::<_, DimacsFailure>(self@),
            decreases line.len() - k,
        {
            assert(rows[k as int] == line@[k as int]@);
            match parse_i32(&line[k]) {
                None => {
                    proof {
                        lemma_read_words_fails(start, rows, (k + 1) as nat, line@.len());
                    }
                    return Err(DimacsError::InvalidLiteral { token: string_of(&line[k]) });
                },
                Some(value) => {
                    let ghost before = *self;
                    if value == 0 {
                        let mut finished: Vec<i32> = Vec::new();
                        std::mem::swap(&mut finished, &mut self.current);
                        self.clauses.push(finished);
                        proof {
                            assert(self@.clauses =~= before@.clauses.push(before@.current));
                            assert(self@.current =~= Seq::<int>::empty());
                        }
                    } else {
                        self.current.push(value);
                        assert(self@.current =~= before@.current.push(value as int));
                    }
                },
            }
            k += 1;
        }
        Ok(())
    }

    fn read_header(&mut self, line: &Vec<char>) -> (result: Result<(), DimacsError>)
        ensures
            match result {
                Ok(_) => read_header(old(self)@, line@) == Ok::<_, DimacsFailure>(final(self)@),
                Err(error) => read_header(old(self)@, line@) == Err::<DimacsState, _>(error@),
            },
    {
        let parts: Vec<Vec<char>> = split_words(line);
        let ghost rows = scan::rows_of(parts@);
        proof {
            reveal_strlit("cnf");
            assert("cnf"@ =~= seq!['c', 'n', 'f']);
        }
        if parts.len() != 4 {
            return Err(DimacsError::UnsupportedHeader { line: string_of(&trim(line)) });
        }
        assert(rows[1] == parts@[1]@);
        assert(rows[2] == parts@[2]@);
        assert(rows[3] == parts@[3]@);
        let is_cnf: bool = parts[1].len() == 3 && parts[1][0] == 'c' && parts[1][1] == 'n' && parts[1][2] == 'f';
        assert(is_cnf == (parts@[1]@ =~= "cnf"@));
        if !is_cnf {
            return Err(DimacsError::UnsupportedHeader { line: string_of(&trim(line)) });
        }
        let limit: u64 = usize::MAX as u64;
        match parse_unsigned(&parts[2], limit) {
            None => Err(DimacsError::InvalidVariableCount { line: string_of(&trim(line)) }),
            Some(variables) => {
                match parse_unsigned(&parts[3], limit) {
                    None => Err(DimacsError::InvalidClauseCount { line: string_of(&trim(line)) }),
                    Some(clauses) => {
                        self.header = Some((variables as usize, clauses as usize));
                        Ok(())
                    },
                }
            },
        }
    }

    fn read_line(&mut self, line: &Vec<char>) -> (result: Result<(), DimacsError>)
        ensures
            match result {
                Ok(_) => read_line(old(self)@, line@) == Ok::<_, DimacsFailure>(final(self)@),
                Err(error) => read_line(old(self)@, line@) == Err::<DimacsState, _>(error@),
            },
    {
        let content: Vec<char> = trim(line);
        if content.len() == 0 || content[0] == 'c' {
            return Ok(());
        }
        if content[0] == 'p' {
            self.read_header(line)
        } else {
            let parts: Vec<Vec<char>> = split_words(line);
            assert(scan::rows_of(parts@).len() == parts@.len());
            self.read_words(&parts)
        }
    }

    fn largest_variable(&self) -> (largest: u32)
        ensures
            is_largest_variable(largest as nat, self@.clauses),
    {
        let ghost rows = self@.clauses;
        let mut largest: u32 = 0;
        let mut i: usize = 0;
        while i < self.clauses.len()
            invariant
                i <= self.clauses@.len(),
                rows == self@.clauses,
                is_largest_variable(largest as nat, rows.take(i as int)),
            decreases self.clauses.len() - i,
        {
            let ghost before = largest;
            let clause: &Vec<i32> = &self.clauses[i];
            let ghost row = rows[i as int];
            let mut j: usize = 0;
            while j < clause.len()
                invariant
                    j <= clause@.len(),
                    i < self.clauses@.len(),
                    rows == self@.clauses,
                    row == rows[i as int],
                    clause == &self.clauses@[i as int],
                    before <= largest,
                    forall|t: int| 0 <= t < j ==> magnitude_of(#[trigger] row[t]) <= largest,
                    largest == before || exists|t: int| 0 <= t < j && magnitude_of(#[trigger] row[t]) == largest,
                decreases clause.len() - j,
            {
                let value: i32 = clause[j];
                assert(row[j as int] == value);
                let size: u32 = if value < 0 {
                    (-(value as i64)) as u32
                } else {
                    value as u32
                };
                if size > largest {
                    largest = size;
                }
                j += 1;
            }
            proof {
                let shorter = rows.take(i as int);
                let longer = rows.take(i + 1);
                assert forall|a: int, b: int|
                    0 <= a < longer.len() && 0 <= b < longer[a].len() implies magnitude_of(
                    #[trigger] longer[a][b],
                ) <= largest by {
                    if a < i {
                        assert(shorter[a][b] == longer[a][b]);
                    } else {
                        assert(row[b] == longer[a][b]);
                    }
                }
                if largest > 0 {
                    if largest == before {
                        let (a, b) = choose|a: int, b: int|
                            0 <= a < shorter.len() && 0 <= b < shorter[a].len() && magnitude_of(
                                #[trigger] shorter[a][b],
                            ) == before;
                        assert(longer[a][b] == shorter[a][b]);
                    } else {
                        let t = choose|t: int| 0 <= t < row.len() && magnitude_of(#[trigger] row[t]) == largest;
                        assert(longer[i as int][t] == row[t]);
                    }
                }
            }
            i += 1;
        }
        assert(rows.take(i as int) =~= rows);
        largest
    }

    fn into_formula(&self) -> (formula: CnfFormula)
        ensures
            formula@ == formula_of(self@.clauses),
    {
        let ghost rows = self@.clauses;
        let mut clauses: Vec<Clause> = Vec::new();
        let mut i: usize = 0;
        while i < self.clauses.len()
            invariant
                i <= self.clauses@.len(),
                rows == self@.clauses,
                clauses@.len() == i,
                forall|k: int| 0 <= k < i ==> (#[trigger] clauses@[k])@ == formula_of(rows)[k],
            decreases self.clauses.len() - i,
        {
            let numbers: &Vec<i32> = &self.clauses[i];
            let ghost row = rows[i as int];
            let mut literals: Vec<Literal> = Vec::new();
            let mut j: usize = 0;
            while j < numbers.len()
                invariant
                    j <= numbers@.len(),
                    i < self.clauses@.len(),
                    rows == self@.clauses,
                    row == rows[i as int],
                    numbers == &self.clauses@[i as int],
                    literals@.len() == j,
                    forall|t: int| 0 <= t < j ==> (#[trigger] literals@[t])@ == literal_of(row[t]),
                decreases numbers.len() - j,
            {
                assert(row[j as int] == numbers@[j as int]);
                literals.push(dimacs_literal_to_literal(numbers[j]));
                j += 1;
            }
            let clause: Clause = Clause::new(literals);
            assert(clause@ =~= formula_of(rows)[i as int]);
            clauses.push(clause);
            i += 1;
        }
        let formula: CnfFormula = CnfFormula::new(clauses);
        assert(formula@ =~= formula_of(rows));
        formula
    }
}

proof fn lemma_read_words_fails(state: DimacsState, line: Seq<Seq<char>>, j: nat, k: nat)
    requires
        j <= k,
        read_words(state, line, j) is Err,
    ensures
        read_words(state, line, k) == read_words(state, line, j),
    decreases k,
{
    if j < k {
        lemma_read_words_fails(state, line, j, (k - 1) as nat);
    }
}

proof fn lemma_read_lines_fails(text: Seq<Seq<char>>, j: nat, k: nat)
    requires
        j <= k,
        read_lines(text, j) is Err,
    ensures
        read_lines(text, k) == read_lines(text, j),
    decreases k,
{
    if j < k {
        lemma_read_lines_fails(text, j, (k - 1) as nat);
    }
}

proof fn lemma_largest_unique(m: nat, n: nat, clauses: Seq<Seq<int>>)
    requires
        is_largest_variable(m, clauses),
        is_largest_variable(n, clauses),
    ensures
        m == n,
{
    if m > 0 {
        let (i, j) = choose|i: int, j: int|
            0 <= i < clauses.len() && 0 <= j < clauses[i].len() && magnitude_of(#[trigger] clauses[i][j]) == m;
        assert(magnitude_of(clauses[i][j]) <= n);
    }
    if n > 0 {
        let (i, j) = choose|i: int, j: int|
            0 <= i < clauses.len() && 0 <= j < clauses[i].len() && magnitude_of(#[trigger] clauses[i][j]) == n;
        assert(magnitude_of(clauses[i][j]) <= m);
    }
}

/// The formula that a DIMACS text denotes.
pub fn parse_dimacs_str(text: &str) -> (result: Result<CnfFormula, DimacsError>)
    ensures
        match dimacs_clauses(text@) {
            Ok(clauses) => result matches Ok(formula) && formula@ == formula_of(clauses),
            Err(failure) => result matches Err(error) && error@ == failure,
        },
{
    let rows: Vec<Vec<char>> = split_lines(&chars_of(text));
    let ghost all = scan::rows_of(rows@);
    let mut reader: DimacsReader = DimacsReader { header: None, clauses: Vec::new(), current: Vec::new() };
    let mut k: usize = 0;
    proof {
        assert(reader@.clauses =~= Seq::<Seq<int>>::empty());
        assert(reader@.current =~= Seq::<int>::empty());
    }
    while k < rows.len()
        invariant
            k <= rows@.len(),
            all == scan::rows_of(rows@),
            all == scan::lines(text@),
            read_lines(all, k as nat) == Ok::<_, DimacsFailure>(reader@),
        decreases rows.len() - k,
    {
        assert(all[k as int] == rows@[k as int]@);
        match reader.read_line(&rows[k]) {
            Ok(_) => {},
            Err(error) => {
                proof {
                    lemma_read_lines_fails(all, (k + 1) as nat, all.len());
                }
                return Err(error);
            },
        }
        k += 1;
    }
    let (variables, expected): (usize, usize) = match reader.header {
        Some(counts) => counts,
        None => {
            return Err(DimacsError::MissingHeader);
        },
    };
    if reader.current.len() > 0 {
        return Err(DimacsError::UnterminatedClause);
    }
    if reader.clauses.len() != expected {
        return Err(DimacsError::ClauseCount { expected, actual: reader.clauses.len() });
    }
    let largest: u32 = reader.largest_variable();
    proof {
        let chosen = choose|n: nat| is_largest_variable(n, reader@.clauses);
        lemma_largest_unique(chosen, largest as nat, reader@.clauses);
    }
    if largest as usize > variables {
        return Err(DimacsError::VariableRange { expected: variables, actual: largest as usize });
    }
    Ok(reader.into_formula())
}

/// The literal that a signed variable number denotes.
fn dimacs_literal_to_literal(value: i32) -> (literal: Literal)
    ensures
        literal@ == literal_of(value as int),
{
    let mut name: String = "x".to_owned();
    if value < 0 {
        push_decimal(&mut name, (-(value as i64)) as u64);
        Literal::negative(name.as_str())
    } else {
        push_decimal(&mut name, value as u64);
        Literal::positive(name.as_str())
    }
}

/// Different variable numbers denote different variables.
pub proof fn law_variable_names_distinct(a: int, b: int)
    requires
        literal_of(a).variable == literal_of(b).variable,
    ensures
        magnitude_of(a) == magnitude_of(b),
{
    let left = literal_of(a).variable;
    let right = literal_of(b).variable;
    reveal_strlit("x");
    assert(left.skip(1) =~= text::decimal(magnitude_of(a)));
    assert(right.skip(1) =~= text::decimal(magnitude_of(b)));
    crate::text::lemma_decimal_injective(magnitude_of(a), magnitude_of(b));
}

/// The words of a clause: its numbers and a zero.
pub open spec fn clause_words(clause: Seq<int>) -> Seq<Seq<char>> {
    Seq::new(clause.len(), |i: int| text::signed_decimal(clause[i])).push(text::decimal(0))
}

/// The words of the header of a number of variables and of clauses.
pub open spec fn header_words(variables: nat, clauses: nat) -> Seq<Seq<char>> {
    seq![seq!['p'], seq!['c', 'n', 'f'], text::decimal(variables), text::decimal(clauses)]
}

/// The lines of the first `k` clauses, with white space around their words.
pub open spec fn shown_clauses(clauses: Seq<Seq<int>>, blanks: Seq<Seq<Seq<char>>>, k: nat) -> Seq<char>
    decreases k,
{
    if k == 0 {
        Seq::empty()
    } else {
        shown_clauses(clauses, blanks, (k - 1) as nat) + scan::spaced_line(
            clause_words(clauses[k - 1]),
            blanks[k - 1],
        ) + seq!['\n']
    }
}

/// The DIMACS text of clauses over a number of variables: the line of the header, and one for each
/// clause, with white space around their words.
pub open spec fn shown(
    variables: nat,
    clauses: Seq<Seq<int>>,
    front: Seq<Seq<char>>,
    blanks: Seq<Seq<Seq<char>>>,
) -> Seq<char> {
    scan::spaced_line(header_words(variables, clauses.len()), front) + seq!['\n'] + shown_clauses(
        clauses,
        blanks,
        clauses.len(),
    )
}

/// The white space keeps the words of the header and of each clause apart.
pub open spec fn are_kept_apart(clauses: Seq<Seq<int>>, front: Seq<Seq<char>>, blanks: Seq<Seq<Seq<char>>>) -> bool {
    &&& scan::are_blanks(front, 4)
    &&& blanks.len() == clauses.len()
    &&& forall|i: int|
        0 <= i < clauses.len() ==> scan::are_blanks(#[trigger] blanks[i], clauses[i].len() + 1)
}

/// The numbers of the clauses are variables, or variables with a minus sign.
pub open spec fn are_clauses(variables: nat, clauses: Seq<Seq<int>>) -> bool {
    forall|i: int, j: int|
        0 <= i < clauses.len() && 0 <= j < clauses[i].len() ==> {
            &&& #[trigger] clauses[i][j] != 0
            &&& i32::MIN <= clauses[i][j] <= i32::MAX
            &&& magnitude_of(clauses[i][j]) <= variables
        }
}

/// The clause can be shown.
spec fn is_clause(clause: Seq<int>) -> bool {
    forall|j: int| 0 <= j < clause.len() ==> #[trigger] clause[j] != 0 && i32::MIN <= clause[j] <= i32::MAX
}

/// The line of a clause, taken apart.
proof fn lemma_shown_clause(clause: Seq<int>, blanks: Seq<Seq<char>>)
    requires
        is_clause(clause),
        scan::are_blanks(blanks, clause.len() + 1),
    ensures
        ({
            let line = scan::spaced_line(clause_words(clause), blanks);
            &&& scan::words(line) == clause_words(clause)
            &&& !line.contains('\n')
            &&& scan::trimmed(line).len() > 0
            &&& scan::trimmed(line)[0] != 'c'
            &&& scan::trimmed(line)[0] != 'p'
        }),
{
    let parts = clause_words(clause);
    scan::lemma_signed_value(0);
    assert(text::signed_decimal(0) == text::decimal(0));
    assert forall|j: int| 0 <= j < parts.len() implies (#[trigger] parts[j]).len() > 0 && scan::all_dark(parts[j])
        && (scan::digit(parts[j][0]) || parts[j][0] == '-') by {
        if j < clause.len() {
            assert(clause[j] != 0);
            scan::lemma_signed_value(clause[j]);
        }
    }
    assert(scan::are_words(parts));
    scan::lemma_spaced_line(parts, blanks);
    assert(scan::digit(parts[0][0]) || parts[0][0] == '-');
}

/// The words of a clause are read as its numbers.
proof fn lemma_read_numbers(state: DimacsState, clause: Seq<int>, k: nat)
    requires
        is_clause(clause),
        state.current.len() == 0,
        k <= clause.len(),
    ensures
        read_words(state, clause_words(clause), k) == Ok::<_, DimacsFailure>(
            DimacsState { header: state.header, clauses: state.clauses, current: clause.take(k as int) },
        ),
    decreases k,
{
    if k == 0 {
        assert(state.current =~= clause.take(0));
    } else {
        lemma_read_numbers(state, clause, (k - 1) as nat);
        assert(clause[k - 1] != 0);
        scan::lemma_signed_value(clause[k - 1]);
        assert(clause_words(clause)[k - 1] == text::signed_decimal(clause[k - 1]));
        assert(clause.take(k - 1).push(clause[k - 1]) =~= clause.take(k as int));
    }
}

/// The line of a clause is read as the clause.
proof fn lemma_read_clause(state: DimacsState, clause: Seq<int>, blanks: Seq<Seq<char>>)
    requires
        is_clause(clause),
        scan::are_blanks(blanks, clause.len() + 1),
        state.current.len() == 0,
    ensures
        read_line(state, scan::spaced_line(clause_words(clause), blanks)) == Ok::<_, DimacsFailure>(
            DimacsState { header: state.header, clauses: state.clauses.push(clause), current: Seq::empty() },
        ),
{
    lemma_shown_clause(clause, blanks);
    let parts = clause_words(clause);
    lemma_read_numbers(state, clause, clause.len());
    assert(clause.take(clause.len() as int) =~= clause);
    scan::lemma_signed_value(0);
    assert(text::signed_decimal(0) == text::decimal(0));
    assert(parts[clause.len() as int] == text::decimal(0));
    assert(parts.len() == clause.len() + 1);
}

/// The header is read as its two numbers.
proof fn lemma_read_header(state: DimacsState, variables: nat, clauses: nat, blanks: Seq<Seq<char>>)
    requires
        variables <= usize::MAX,
        clauses <= usize::MAX,
        scan::are_blanks(blanks, 4),
    ensures
        read_line(state, scan::spaced_line(header_words(variables, clauses), blanks)) == Ok::<_, DimacsFailure>(
            DimacsState { header: Some((variables, clauses)), clauses: state.clauses, current: state.current },
        ),
        !scan::spaced_line(header_words(variables, clauses), blanks).contains('\n'),
{
    let parts = header_words(variables, clauses);
    scan::lemma_unsigned_value(variables, usize::MAX as nat);
    scan::lemma_unsigned_value(clauses, usize::MAX as nat);
    assert(!scan::white('p') && !scan::white('c') && !scan::white('n') && !scan::white('f'));
    assert forall|j: int| 0 <= j < parts.len() implies (#[trigger] parts[j]).len() > 0 && scan::all_dark(parts[j]) by {
        if j == 0 {
            assert(parts[j] == seq!['p']);
        } else if j == 1 {
            assert(parts[j] == seq!['c', 'n', 'f']);
        } else if j == 2 {
            assert(parts[j] == text::decimal(variables));
        } else {
            assert(parts[j] == text::decimal(clauses));
        }
    }
    scan::lemma_spaced_line(parts, blanks);
    reveal_strlit("cnf");
    assert("cnf"@ =~= parts[1]);
    assert(parts[0][0] == 'p');
}

/// The lines of a shown text: the header, and then the clauses.
proof fn lemma_shown_lines(
    variables: nat,
    clauses: Seq<Seq<int>>,
    front: Seq<Seq<char>>,
    blanks: Seq<Seq<Seq<char>>>,
    k: nat,
)
    requires
        variables <= usize::MAX,
        clauses.len() <= usize::MAX,
        are_clauses(variables, clauses),
        are_kept_apart(clauses, front, blanks),
        k <= clauses.len(),
    ensures
        ({
            let header = scan::spaced_line(header_words(variables, clauses.len()), front);
            scan::line_scan(header + seq!['\n'] + shown_clauses(clauses, blanks, k)) == (
                seq![header] + Seq::new(k, |i: int| scan::spaced_line(clause_words(clauses[i]), blanks[i])),
                Seq::<char>::empty(),
            )
        }),
    decreases k,
{
    let header = scan::spaced_line(header_words(variables, clauses.len()), front);
    let start = header + seq!['\n'];
    let none = Seq::<char>::empty();
    let list = Seq::new(k, |i: int| scan::spaced_line(clause_words(clauses[i]), blanks[i]));
    if k == 0 {
        lemma_read_header(
            DimacsState { header: None, clauses: Seq::empty(), current: Seq::empty() },
            variables,
            clauses.len(),
            front,
        );
        scan::lemma_line_ends(none, header);
        assert(none + header + seq!['\n'] =~= start + shown_clauses(clauses, blanks, 0));
        assert(scan::line_scan(none).0.push(header) =~= seq![header] + list);
    } else {
        let m = (k - 1) as nat;
        lemma_shown_lines(variables, clauses, front, blanks, m);
        assert forall|j: int| 0 <= j < clauses[k - 1].len() implies #[trigger] clauses[k - 1][j] != 0 && i32::MIN
            <= clauses[k - 1][j] <= i32::MAX by {}
        assert(scan::are_blanks(blanks[m as int], clauses[m as int].len() + 1));
        lemma_shown_clause(clauses[k - 1], blanks[k - 1]);
        let before = start + shown_clauses(clauses, blanks, m);
        let line = scan::spaced_line(clause_words(clauses[k - 1]), blanks[k - 1]);
        scan::lemma_line_ends(before, line);
        assert(before + line + seq!['\n'] =~= start + shown_clauses(clauses, blanks, k));
        assert((seq![header] + Seq::new(m, |i: int| scan::spaced_line(clause_words(clauses[i]), blanks[i]))).push(line)
            =~= seq![header] + list);
    }
}

/// The lines of a shown text are read as the clauses.
proof fn lemma_read_shown(
    variables: nat,
    clauses: Seq<Seq<int>>,
    front: Seq<Seq<char>>,
    blanks: Seq<Seq<Seq<char>>>,
    lines: Seq<Seq<char>>,
    k: nat,
)
    requires
        variables <= usize::MAX,
        clauses.len() <= usize::MAX,
        are_clauses(variables, clauses),
        are_kept_apart(clauses, front, blanks),
        lines.len() == clauses.len() + 2,
        lines[0] == scan::spaced_line(header_words(variables, clauses.len()), front),
        forall|i: int|
            0 <= i < clauses.len() ==> #[trigger] lines[i + 1] == scan::spaced_line(
                clause_words(clauses[i]),
                blanks[i],
            ),
        k <= clauses.len(),
    ensures
        read_lines(lines, k + 1) == Ok::<_, DimacsFailure>(
            DimacsState {
                header: Some((variables, clauses.len())),
                clauses: clauses.take(k as int),
                current: Seq::empty(),
            },
        ),
    decreases k,
{
    let first = DimacsState { header: None, clauses: Seq::<Seq<int>>::empty(), current: Seq::<int>::empty() };
    if k == 0 {
        lemma_read_header(first, variables, clauses.len(), front);
        assert(read_lines(lines, 0) == Ok::<_, DimacsFailure>(first));
        assert(clauses.take(0) =~= first.clauses);
    } else {
        let m = (k - 1) as nat;
        lemma_read_shown(variables, clauses, front, blanks, lines, m);
        assert forall|j: int| 0 <= j < clauses[k - 1].len() implies #[trigger] clauses[k - 1][j] != 0 && i32::MIN
            <= clauses[k - 1][j] <= i32::MAX by {}
        assert(lines[m as int + 1] == scan::spaced_line(clause_words(clauses[m as int]), blanks[m as int]));
        let state = DimacsState {
            header: Some((variables, clauses.len())),
            clauses: clauses.take(m as int),
            current: Seq::<int>::empty(),
        };
        assert(scan::are_blanks(blanks[m as int], clauses[m as int].len() + 1));
        lemma_read_clause(state, clauses[m as int], blanks[m as int]);
        assert(clauses.take(m as int).push(clauses[m as int]) =~= clauses.take(k as int));
    }
}

/// Clauses with a bound on their variables have a largest variable.
proof fn lemma_largest_exists(bound: nat, clauses: Seq<Seq<int>>)
    requires
        forall|i: int, j: int|
            0 <= i < clauses.len() && 0 <= j < clauses[i].len() ==> magnitude_of(#[trigger] clauses[i][j]) <= bound,
    ensures
        exists|n: nat| is_largest_variable(n, clauses),
    decreases bound,
{
    if bound == 0 || exists|i: int, j: int|
        0 <= i < clauses.len() && 0 <= j < clauses[i].len() && magnitude_of(#[trigger] clauses[i][j]) == bound {
        assert(is_largest_variable(bound, clauses));
    } else {
        assert forall|i: int, j: int| 0 <= i < clauses.len() && 0 <= j < clauses[i].len() implies magnitude_of(
            #[trigger] clauses[i][j],
        ) <= bound - 1 by {
            assert(magnitude_of(clauses[i][j]) != bound);
        }
        lemma_largest_exists((bound - 1) as nat, clauses);
    }
}

/// The DIMACS text of clauses, a header and a line of numbers and a zero for each, denotes the
/// clauses, whatever white space stands before, between and behind the words of a line: the variable
/// with number `n` is `xn`, and negated where the number has a minus sign.
pub proof fn law_shown_clauses_read(
    variables: nat,
    clauses: Seq<Seq<int>>,
    front: Seq<Seq<char>>,
    blanks: Seq<Seq<Seq<char>>>,
)
    requires
        variables <= usize::MAX,
        clauses.len() <= usize::MAX,
        are_clauses(variables, clauses),
        are_kept_apart(clauses, front, blanks),
    ensures
        dimacs_clauses(shown(variables, clauses, front, blanks)) == Ok::<_, DimacsFailure>(clauses),
        forall|i: int, j: int|
            0 <= i < clauses.len() && 0 <= j < clauses[i].len() ==> {
                &&& (#[trigger] formula_of(clauses)[i][j]).variable == "x"@ + text::decimal(
                    magnitude_of(clauses[i][j]),
                )
                &&& formula_of(clauses)[i][j].negated == (clauses[i][j] < 0)
            },
{
    let count = clauses.len();
    let text = shown(variables, clauses, front, blanks);
    let lines = scan::lines(text);
    lemma_shown_lines(variables, clauses, front, blanks, count);
    assert(lines.len() == count + 2);
    assert(lines[0] == scan::spaced_line(header_words(variables, count), front));
    assert forall|i: int| 0 <= i < count implies #[trigger] lines[i + 1] == scan::spaced_line(
        clause_words(clauses[i]),
        blanks[i],
    ) by {}
    lemma_read_shown(variables, clauses, front, blanks, lines, count);
    assert(clauses.take(count as int) =~= clauses);
    assert(lines[count as int + 1].len() == 0);
    assert(scan::trimmed(lines[count as int + 1]).len() == 0);
    let state = DimacsState { header: Some((variables, count)), clauses, current: Seq::<int>::empty() };
    assert(read_lines(lines, count + 2) == Ok::<_, DimacsFailure>(state));
    lemma_largest_exists(variables, clauses);
    let largest = choose|n: nat| is_largest_variable(n, clauses);
    assert(is_largest_variable(largest, clauses));
    assert(largest <= variables);
}

/// The numbers of a clause, with a space between each two.
pub open spec fn printed_numbers(clause: Seq<int>) -> Seq<char> {
    text::joined(Seq::new(clause.len(), |i: int| text::signed_decimal(clause[i])), seq![' '])
}

/// The lines of the first `k` clauses: the numbers of each, a space and a zero.
pub open spec fn printed_clauses(clauses: Seq<Seq<int>>, k: nat) -> Seq<char>
    decreases k,
{
    if k == 0 {
        Seq::empty()
    } else {
        printed_clauses(clauses, (k - 1) as nat) + printed_numbers(clauses[k - 1]) + seq![' ', '0', '\n']
    }
}

/// The DIMACS text of clauses over a number of variables, with single spaces.
pub open spec fn printed(variables: nat, clauses: Seq<Seq<int>>) -> Seq<char> {
    seq!['p', ' ', 'c', 'n', 'f', ' '] + text::decimal(variables) + seq![' '] + text::decimal(clauses.len())
        + seq!['\n'] + printed_clauses(clauses, clauses.len())
}

/// The white space in a line of `n` numbers and a zero: a space before each word but the first, and
/// before a zero that stands alone.
spec fn single_spaces(n: nat) -> Seq<Seq<char>> {
    Seq::new(
        n + 2,
        |j: int|
            if (0 < j <= n) || (j == 0 && n == 0) {
                seq![' ']
            } else {
                Seq::empty()
            },
    )
}

proof fn lemma_single_spaces(n: nat)
    ensures
        scan::are_blanks(single_spaces(n), n + 1),
{
    assert(scan::white(' '));
    assert forall|j: int| 0 <= j <= n + 1 implies scan::is_blank(#[trigger] single_spaces(n)[j]) by {}
}

proof fn lemma_printed_numbers(clause: Seq<int>, k: nat)
    requires
        0 < k <= clause.len(),
    ensures
        scan::spaced(clause_words(clause), single_spaces(clause.len()), k) == text::joined(
            Seq::new(clause.len(), |i: int| text::signed_decimal(clause[i])).take(k as int),
            seq![' '],
        ),
    decreases k,
{
    let all = Seq::new(clause.len(), |i: int| text::signed_decimal(clause[i]));
    let blanks = single_spaces(clause.len());
    let parts = clause_words(clause);
    let m = (k - 1) as nat;
    text::lemma_joined_step(all, seq![' '], m as int);
    assert(parts[m as int] == all[m as int]);
    if m == 0 {
        assert(blanks[0] == Seq::<char>::empty());
        assert(scan::spaced(parts, blanks, 0) + blanks[0] + parts[0] =~= all[0]);
    } else {
        lemma_printed_numbers(clause, m);
        assert(blanks[m as int] == seq![' ']);
    }
}

proof fn lemma_printed_clause(clause: Seq<int>)
    ensures
        scan::spaced_line(clause_words(clause), single_spaces(clause.len())) + seq!['\n'] == printed_numbers(clause)
            + seq![' ', '0', '\n'],
{
    let n = clause.len();
    let all = Seq::new(n, |i: int| text::signed_decimal(clause[i]));
    let blanks = single_spaces(n);
    let parts = clause_words(clause);
    assert(all.take(n as int) =~= all);
    if n > 0 {
        lemma_printed_numbers(clause, n);
    }
    assert(scan::spaced(parts, blanks, n) =~= printed_numbers(clause));
    assert(parts[n as int] == text::decimal(0));
    assert(text::digit_char(0) == '0');
    assert(blanks[n as int] == seq![' ']);
    assert(blanks[n as int + 1] == Seq::<char>::empty());
    assert(scan::spaced_line(parts, blanks) + seq!['\n'] =~= printed_numbers(clause) + seq![' ', '0', '\n']);
}

proof fn lemma_printed_clauses(clauses: Seq<Seq<int>>, k: nat)
    requires
        k <= clauses.len(),
    ensures
        printed_clauses(clauses, k) == shown_clauses(
            clauses,
            Seq::new(clauses.len(), |i: int| single_spaces(clauses[i].len())),
            k,
        ),
    decreases k,
{
    if k > 0 {
        let blanks = Seq::new(clauses.len(), |i: int| single_spaces(clauses[i].len()));
        let before = printed_clauses(clauses, (k - 1) as nat);
        lemma_printed_clauses(clauses, (k - 1) as nat);
        lemma_printed_clause(clauses[k - 1]);
        let line = scan::spaced_line(clause_words(clauses[k - 1]), blanks[k - 1]);
        assert(before + line + seq!['\n'] =~= before + (line + seq!['\n']));
        assert(before + printed_numbers(clauses[k - 1]) + seq![' ', '0', '\n'] =~= before + (printed_numbers(
            clauses[k - 1],
        ) + seq![' ', '0', '\n']));
    }
}

/// Reading undoes writing: the DIMACS text of clauses with single spaces, in which a clause is its
/// numbers, a space and a zero, denotes the clauses.
pub proof fn law_printed_clauses_read(variables: nat, clauses: Seq<Seq<int>>)
    requires
        variables <= usize::MAX,
        clauses.len() <= usize::MAX,
        are_clauses(variables, clauses),
    ensures
        dimacs_clauses(printed(variables, clauses)) == Ok::<_, DimacsFailure>(clauses),
{
    let none = Seq::<char>::empty();
    let front = seq![none, seq![' '], seq![' '], seq![' '], none];
    let blanks = Seq::new(clauses.len(), |i: int| single_spaces(clauses[i].len()));
    let parts = header_words(variables, clauses.len());
    assert(scan::white(' '));
    assert forall|j: int| 0 <= j <= 4 implies scan::is_blank(#[trigger] front[j]) by {
        assert(j == 0 || j == 1 || j == 2 || j == 3 || j == 4);
    }
    assert(scan::are_blanks(front, 4));
    assert forall|i: int| 0 <= i < clauses.len() implies scan::are_blanks(
        #[trigger] blanks[i],
        clauses[i].len() + 1,
    ) by {
        lemma_single_spaces(clauses[i].len());
    }
    lemma_printed_clauses(clauses, clauses.len());
    reveal_with_fuel(scan::spaced, 5);
    assert(scan::spaced_line(parts, front) =~= seq!['p', ' ', 'c', 'n', 'f', ' '] + text::decimal(variables) + seq![' ']
        + text::decimal(clauses.len()));
    assert(printed(variables, clauses) =~= shown(variables, clauses, front, blanks));
    law_shown_clauses_read(variables, clauses, front, blanks);
}

} // verus!
