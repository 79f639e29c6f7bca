//! What is counted.

use crate::discharge;
use crate::discharge::InterfaceLemmaReport;
use crate::grid;
use crate::inputs;
use crate::inputs::{InputBoundaryEntry, InputEncodingMode};
use vstd::prelude::*;

verus! {

/// The reports of tests that succeeded.
pub open spec fn good_reports(reports: Seq<InterfaceLemmaReport>, k: nat) -> Set<int> {
    Set::new(|i: int| 0 <= i < k && reports[i].succeeds())
}

/// The successes are as many as there are reports of tests that succeeded.
pub proof fn law_successes_are_counted(reports: Seq<InterfaceLemmaReport>, k: nat)
    requires
        k <= reports.len(),
    ensures
        good_reports(reports, k).finite(),
        discharge::successes(reports, k) == good_reports(reports, k).len(),
    decreases k,
{
    let all = good_reports(reports, k);
    if k == 0 {
        assert(all =~= Set::empty());
    } else {
        law_successes_are_counted(reports, (k - 1) as nat);
        let less = good_reports(reports, (k - 1) as nat);
        if reports[k - 1].succeeds() {
            assert(all =~= less.insert(k - 1));
        } else {
            assert(all =~= less);
        }
    }
}

/// The entries of variables.
pub open spec fn variable_entries(entries: Seq<InputBoundaryEntry>, k: nat) -> Set<int> {
    Set::new(|i: int| 0 <= i < k && entries[i].mode == InputEncodingMode::Variable)
}

/// The variables are as many as there are entries of variables.
pub proof fn law_variables_are_counted(entries: Seq<InputBoundaryEntry>, k: nat)
    requires
        k <= entries.len(),
    ensures
        variable_entries(entries, k).finite(),
        inputs::variable_count(entries, k) == variable_entries(entries, k).len(),
    decreases k,
{
    let all = variable_entries(entries, k);
    if k == 0 {
        assert(all =~= Set::empty());
    } else {
        law_variables_are_counted(entries, (k - 1) as nat);
        let less = variable_entries(entries, (k - 1) as nat);
        if entries[k - 1].mode == InputEncodingMode::Variable {
            assert(all =~= less.insert(k - 1));
        } else {
            assert(all =~= less);
        }
    }
}

/// The live cells of a row, in a column of places.
pub open spec fn live_in_row(row: Seq<bool>, y: int) -> Set<(int, int)> {
    Set::new(|p: (int, int)| p.1 == y && 0 <= p.0 < row.len() && row[p.0])
}

/// The live cells of rows.
pub open spec fn live_cells(rows: Seq<Seq<bool>>) -> Set<(int, int)> {
    Set::new(|p: (int, int)| 0 <= p.1 < rows.len() && 0 <= p.0 < rows[p.1].len() && rows[p.1][p.0])
}

proof fn lemma_live_in_row(row: Seq<bool>, y: int)
    ensures
        live_in_row(row, y).finite(),
        grid::alive_in_row(row) == live_in_row(row, y).len(),
    decreases row.len(),
{
    let all = live_in_row(row, y);
    if row.len() == 0 {
        assert(all =~= Set::empty());
    } else {
        let rest = row.drop_last();
        lemma_live_in_row(rest, y);
        let less = live_in_row(rest, y);
        let last = (row.len() - 1, y);
        if row.last() {
            assert(all =~= less.insert(last));
        } else {
            assert(all =~= less);
        }
    }
}

/// The living cells of a grid are as many as its cells that are alive.
pub proof fn law_living_cells_are_counted(rows: Seq<Seq<bool>>)
    ensures
        live_cells(rows).finite(),
        grid::alive_in_rows(rows) == live_cells(rows).len(),
    decreases rows.len(),
{
    let all = live_cells(rows);
    if rows.len() == 0 {
        assert(all =~= Set::empty());
    } else {
        let rest = rows.drop_last();
        law_living_cells_are_counted(rest);
        let y = rows.len() - 1;
        lemma_live_in_row(rows.last(), y);
        let (less, last) = (live_cells(rest), live_in_row(rows.last(), y));
        assert(less.disjoint(last));
        vstd::set_lib::lemma_set_disjoint_lens(less, last);
        assert(all =~= less + last);
    }
}

} // verus!
