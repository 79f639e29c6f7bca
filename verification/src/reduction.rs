//! Exhaustive comparison of a formula with its construction.

use crate::circuit::{CnfFormula, CnfModel};
use crate::compiler::CompiledConstruction;
use crate::compiler::{ConstructionCompiler, ConstructionError};
use crate::strmap::StrMap;
use crate::circuit;
use crate::compiler;
use crate::seqs;
use crate::strmap;
use crate::bits;
use vstd::prelude::*;

verus! {

/// One row of a truth table, for the formula and for its construction.
#[derive(Debug, Clone)]
pub struct AssignmentReport {
    pub assignment: StrMap<bool>,
    pub formula_value: bool,
    pub construction_value: bool,
}

/// The truth tables of a formula and of its construction.
#[derive(Debug, Clone)]
pub struct ReductionReport {
    pub assignments: Vec<AssignmentReport>,
}

/// The assignment that gives each variable the digit at its position.
pub open spec fn row_assignment(names: Seq<Seq<char>>, mask: nat) -> Map<Seq<char>, bool> {
    Map::new(|v: Seq<char>| names.contains(v), |v: Seq<char>| bits::mask_bit(mask, names.index_of(v) as nat))
}

/// A row compares the formula with its construction under the assignment of its number.
pub open spec fn is_row(row: AssignmentReport, formula: CnfModel, mask: nat) -> bool {
    let a = row_assignment(circuit::sorted_variables(formula), mask);
    &&& row.assignment.wf()
    &&& row.assignment@ == a
    &&& row.formula_value == circuit::cnf_value(formula, a)
    &&& compiler::construction_value(compiler::compiled(circuit::circuit_of(formula)), a) == Some(row.construction_value)
}

/// A report holds one row for each assignment of the variables.
pub open spec fn is_report(report: ReductionReport, formula: CnfModel) -> bool {
    &&& report.assignments@.len() == bits::two_to(circuit::sorted_variables(formula).len())
    &&& forall|m: int|
        0 <= m < report.assignments@.len() ==> is_row(#[trigger] report.assignments@[m], formula, m as nat)
}

impl ReductionReport {
    /// Whether the formula and its construction agree in every row.
    pub fn preserves_truth_table(&self) -> (preserved: bool)
        ensures
            preserved == (forall|m: int|
                0 <= m < self.assignments@.len() ==> (#[trigger] self.assignments@[m]).formula_value
                    == self.assignments@[m].construction_value),
    {
        let mut i: usize = 0;
        while i < self.assignments.len()
            invariant
                i <= self.assignments@.len(),
                forall|m: int|
                    0 <= m < i ==> (#[trigger] self.assignments@[m]).formula_value
                        == self.assignments@[m].construction_value,
            decreases self.assignments.len() - i,
        {
            if self.assignments[i].formula_value != self.assignments[i].construction_value {
                return false;
            }
            i += 1;
        }
        true
    }

    /// Whether the formula holds in some row.
    pub fn formula_is_satisfiable(&self) -> (satisfiable: bool)
        ensures
            satisfiable == (exists|m: int|
                0 <= m < self.assignments@.len() && (#[trigger] self.assignments@[m]).formula_value),
    {
        let mut i: usize = 0;
        while i < self.assignments.len()
            invariant
                i <= self.assignments@.len(),
                forall|m: int| 0 <= m < i ==> !(#[trigger] self.assignments@[m]).formula_value,
            decreases self.assignments.len() - i,
        {
            if self.assignments[i].formula_value {
                return true;
            }
            i += 1;
        }
        false
    }

    /// Whether the construction holds in some row.
    pub fn construction_is_satisfiable(&self) -> (satisfiable: bool)
        ensures
            satisfiable == (exists|m: int|
                0 <= m < self.assignments@.len() && (#[trigger] self.assignments@[m]).construction_value),
    {
        let mut i: usize = 0;
        while i < self.assignments.len()
            invariant
                i <= self.assignments@.len(),
                forall|m: int| 0 <= m < i ==> !(#[trigger] self.assignments@[m]).construction_value,
            decreases self.assignments.len() - i,
        {
            if self.assignments[i].construction_value {
                return true;
            }
            i += 1;
        }
        false
    }
}

/// Compares a formula with its construction under every assignment of its variables.
pub fn exhaustive_reduction_report(
    formula: &CnfFormula,
) -> (result: Result<ReductionReport, ConstructionError>)
    requires
        3 * circuit::circuit_of(formula@).nodes.len() + 4 <= usize::MAX,
        bits::two_to(circuit::sorted_variables(formula@).len()) <= usize::MAX,
    ensures
        result matches Ok(report) && is_report(report, formula@),
{
    let ghost model = formula@;
    let construction: CompiledConstruction = match ConstructionCompiler::compile_cnf(formula) {
        Ok(construction) => construction,
        Err(error) => {
            return Err(error);
        },
    };
    let names: Vec<String> = formula.variables();
    let ghost list = circuit::texts(names@);
    proof {
        circuit::lemma_variables_unique(list, model);
        strmap::lemma_sorted_texts_distinct(list);
    }
    let mut total: usize = 1;
    let mut n: usize = 0;
    while n < names.len()
        invariant
            n <= names@.len(),
            total == bits::two_to(n as nat),
            bits::two_to(names@.len()) <= usize::MAX,
        decreases names.len() - n,
    {
        proof {
            bits::lemma_two_to_grows((n + 1) as nat, names@.len());
        }
        total = total * 2;
        n += 1;
    }
    let mut assignments: Vec<AssignmentReport> = Vec::new();
    let mut mask: usize = 0;
    while mask < total
        invariant
            mask <= total,
            model == formula@,
            list == circuit::texts(names@),
            list == circuit::sorted_variables(model),
            circuit::are_variables(list, model),
            list.no_duplicates(),
            construction@ == compiler::compiled(circuit::circuit_of(model)),
            assignments@.len() == mask,
            forall|m: int| 0 <= m < mask ==> is_row(#[trigger] assignments@[m], model, m as nat),
        decreases total - mask,
    {
        let assignment: StrMap<bool> = assignment_for_mask(&names, mask);
        let ghost a = assignment@;
        proof {
            assert forall|v: Seq<char>| #[trigger] circuit::cnf_mentions(model, v) implies a.contains_key(v) by {
                assert(list.contains(v));
            }
            compiler::law_formula_construction_value(model, a);
            assert forall|i: int| 0 <= i < construction@.variables.len() implies a.contains_key(
                #[trigger] construction@.variables[i],
            ) by {
                assert(list.contains(list[i]));
            }
        }
        let formula_value: bool = formula.evaluate(&assignment);
        match construction.evaluate(&assignment) {
            Ok(construction_value) => {
                assignments.push(AssignmentReport { assignment, formula_value, construction_value });
            },
            Err(error) => {
                return Err(error);
            },
        }
        mask += 1;
    }
    Ok(ReductionReport { assignments })
}

/// The assignment that gives each variable the binary digit at its position.
fn assignment_for_mask(names: &Vec<String>, mask: usize) -> (assignment: StrMap<bool>)
    requires
        circuit::texts(names@).no_duplicates(),
    ensures
        assignment.wf(),
        assignment@ == row_assignment(circuit::texts(names@), mask as nat),
{
    let ghost list = circuit::texts(names@);
    let mut assignment: StrMap<bool> = StrMap::new();
    let mut rest: usize = mask;
    let mut i: usize = 0;
    while i < names.len()
        invariant
            i <= names@.len(),
            list == circuit::texts(names@),
            list.no_duplicates(),
            rest == bits::shifted(mask as nat, i as nat),
            assignment.wf(),
            forall|v: Seq<char>| #[trigger] assignment@.contains_key(v) <==> list.take(i as int).contains(v),
            forall|v: Seq<char>| #[trigger] assignment@.contains_key(v) ==> assignment@[v] == bits::mask_bit(
                mask as nat,
                list.index_of(v) as nat,
            ),
        decreases names.len() - i,
    {
        let ghost before = assignment@;
        assignment.insert(names[i].clone(), rest % 2 == 1);
        proof {
            let name = list[i as int];
            assert(list.index_of(name) == i);
            assert forall|v: Seq<char>| #[trigger] assignment@.contains_key(v) <==> list.take(i + 1).contains(v) by {
                seqs::lemma_take_contains(list, i as int, v);
            }
            assert forall|v: Seq<char>| #[trigger] assignment@.contains_key(v) implies assignment@[v]
                == bits::mask_bit(mask as nat, list.index_of(v) as nat) by {
                if v != name {
                    assert(before.contains_key(v));
                }
            }
        }
        rest = rest / 2;
        i += 1;
    }
    proof {
        assert(list.take(i as int) =~= list);
        assert(assignment@ =~= row_assignment(list, mask as nat));
    }
    assignment
}

/// The number of the row that gives the variables the values of `a`.
pub open spec fn mask_of(names: Seq<Seq<char>>, a: Map<Seq<char>, bool>) -> nat {
    bits::number_of(Seq::new(names.len(), |i: int| circuit::value_of(a, names[i])))
}

/// Assignments that agree on the variables of a formula give it the same value.
pub proof fn lemma_value_by_variables(formula: CnfModel, a: Map<Seq<char>, bool>, b: Map<Seq<char>, bool>)
    requires
        forall|v: Seq<char>| #[trigger] circuit::cnf_mentions(formula, v) ==> circuit::value_of(a, v) == circuit::value_of(b, v),
    ensures
        circuit::cnf_value(formula, a) == circuit::cnf_value(formula, b),
{
    assert forall|i: int| 0 <= i < formula.len() implies circuit::clause_value(#[trigger] formula[i], a) == circuit::clause_value(
        formula[i],
        b,
    ) by {
        let clause = formula[i];
        assert forall|j: int| 0 <= j < clause.len() implies circuit::literal_value(#[trigger] clause[j], a)
            == circuit::literal_value(clause[j], b) by {
            assert(crate::circuit::clause_mentions(formula[i], clause[j].variable));
            assert(circuit::cnf_mentions(formula, clause[j].variable));
        }
    }
}

/// The rows of a report cover every assignment: a formula holds in some row if and only
/// if it is satisfiable.
pub proof fn law_report_decides_satisfiability(report: ReductionReport, formula: CnfModel)
    requires
        is_report(report, formula),
    ensures
        (exists|m: int| 0 <= m < report.assignments@.len() && (#[trigger] report.assignments@[m]).formula_value)
            <==> (exists|a: Map<Seq<char>, bool>| #[trigger] circuit::cnf_value(formula, a)),
{
    let names = circuit::sorted_variables(formula);
    crate::circuit::lemma_variables_exist(formula);
    strmap::lemma_sorted_texts_distinct(names);
    if exists|m: int| 0 <= m < report.assignments@.len() && (#[trigger] report.assignments@[m]).formula_value {
        let m = choose|m: int|
            0 <= m < report.assignments@.len() && (#[trigger] report.assignments@[m]).formula_value;
        assert(is_row(report.assignments@[m], formula, m as nat));
        assert(circuit::cnf_value(formula, row_assignment(names, m as nat)));
    }
    if exists|a: Map<Seq<char>, bool>| #[trigger] circuit::cnf_value(formula, a) {
        let a = choose|a: Map<Seq<char>, bool>| #[trigger] circuit::cnf_value(formula, a);
        let m = mask_of(names, a);
        let digits = Seq::new(names.len(), |i: int| circuit::value_of(a, names[i]));
        bits::lemma_number_of(digits);
        let row = row_assignment(names, m);
        assert forall|v: Seq<char>| #[trigger] circuit::cnf_mentions(formula, v) implies circuit::value_of(a, v) == circuit::value_of(
            row,
            v,
        ) by {
            assert(names.contains(v));
            let i = names.index_of(v);
            assert(names[i] == v);
            assert(bits::mask_bit(m, i as nat) == digits[i]);
        }
        lemma_value_by_variables(formula, a, row);
        assert(is_row(report.assignments@[m as int], formula, m));
    }
}

/// The report on a formula shows that the truth table is preserved. Left out are the formula
/// without clauses, whose enforcer no value reaches, and those where an input named `const_0`
/// stands for a true empty clause while all other clauses hold.
pub proof fn law_report_preserves_truth_table(report: ReductionReport, formula: CnfModel)
    requires
        is_report(report, formula),
        formula.len() > 0,
        compiler::blank_is_harmless(formula),
    ensures
        forall|m: int|
            0 <= m < report.assignments@.len() ==> (#[trigger] report.assignments@[m]).formula_value
                == report.assignments@[m].construction_value,
{
    let names = circuit::sorted_variables(formula);
    crate::circuit::lemma_variables_exist(formula);
    assert forall|m: int| 0 <= m < report.assignments@.len() implies (
    #[trigger] report.assignments@[m]).formula_value == report.assignments@[m].construction_value by {
        assert(is_row(report.assignments@[m], formula, m as nat));
        let a = row_assignment(names, m as nat);
        assert forall|v: Seq<char>| #[trigger] circuit::cnf_mentions(formula, v) implies a.contains_key(v) by {
            assert(names.contains(v));
        }
        compiler::law_truth_table_preserved(formula, a);
    }
}

} // verus!
