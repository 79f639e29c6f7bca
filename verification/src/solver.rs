//! A complete search for models of clauses over numbered variables.
//!
//! A literal is a variable's number, counted from one, with a minus sign where the
//! variable is negated.

use crate::clock::Deadline;
use vstd::prelude::*;

verus! {

/// The variable of a literal, counted from zero.
pub open spec fn variable_of(literal: i32) -> int {
    if literal < 0 {
        -(literal as int) - 1
    } else {
        literal as int - 1
    }
}

/// The value that makes a literal true.
pub open spec fn wanted(literal: i32) -> bool {
    literal > 0
}

/// A literal holds in a model.
pub open spec fn literal_holds(model: Seq<bool>, literal: i32) -> bool {
    model[variable_of(literal)] == wanted(literal)
}

/// Some literal of a clause holds in a model.
pub open spec fn clause_holds(model: Seq<bool>, clause: Seq<i32>) -> bool {
    exists|i: int| 0 <= i < clause.len() && literal_holds(model, #[trigger] clause[i])
}

/// The clauses, as sequences.
pub open spec fn clause_seqs(clauses: Seq<Vec<i32>>) -> Seq<Seq<i32>> {
    Seq::new(clauses.len(), |i: int| clauses[i]@)
}

/// Every clause holds in a model.
pub open spec fn satisfies(model: Seq<bool>, clauses: Seq<Seq<i32>>) -> bool {
    forall|i: int| 0 <= i < clauses.len() ==> clause_holds(model, #[trigger] clauses[i])
}

/// A literal names one of the first `n` variables.
pub open spec fn literal_in_range(literal: i32, n: nat) -> bool {
    literal != 0 && literal > i32::MIN && variable_of(literal) < n
}

/// Every literal of a clause names one of the first `n` variables.
pub open spec fn clause_in_range(clause: Seq<i32>, n: nat) -> bool {
    forall|i: int| 0 <= i < clause.len() ==> literal_in_range(#[trigger] clause[i], n)
}

/// Every literal names one of the first `n` variables.
pub open spec fn clauses_in_range(clauses: Seq<Seq<i32>>, n: nat) -> bool {
    forall|i: int| 0 <= i < clauses.len() ==> clause_in_range(#[trigger] clauses[i], n)
}

/// A model has the values that are fixed.
pub open spec fn agrees(model: Seq<bool>, fixed: Seq<Option<bool>>) -> bool {
    &&& model.len() == fixed.len()
    &&& forall|v: int| 0 <= v < fixed.len() ==> (#[trigger] fixed[v] matches Some(value) ==> model[v] == value)
}

/// How many values are open.
pub open spec fn open_count(fixed: Seq<Option<bool>>) -> nat
    decreases fixed.len(),
{
    if fixed.len() == 0 {
        0
    } else {
        open_count(fixed.drop_last()) + (if fixed.last() is None {
            1nat
        } else {
            0
        })
    }
}

proof fn lemma_fix_one(fixed: Seq<Option<bool>>, v: int, value: bool)
    requires
        0 <= v < fixed.len(),
        fixed[v] is None,
    ensures
        open_count(fixed.update(v, Some(value))) + 1 == open_count(fixed),
    decreases fixed.len(),
{
    let after = fixed.update(v, Some(value));
    if v == fixed.len() - 1 {
        assert(after.drop_last() =~= fixed.drop_last());
    } else {
        assert(after.drop_last() =~= fixed.drop_last().update(v, Some(value)));
        lemma_fix_one(fixed.drop_last(), v, value);
    }
}

/// A literal's value where it is fixed.
pub open spec fn fixed_true(fixed: Seq<Option<bool>>, literal: i32) -> bool {
    fixed[variable_of(literal)] == Some(wanted(literal))
}

/// The literal's variable is open.
pub open spec fn literal_open(fixed: Seq<Option<bool>>, literal: i32) -> bool {
    fixed[variable_of(literal)] is None
}

/// Some literal of the clause is open or true.
pub open spec fn clause_alive(fixed: Seq<Option<bool>>, clause: Seq<i32>) -> bool {
    exists|i: int|
        0 <= i < clause.len() && (literal_open(fixed, #[trigger] clause[i]) || fixed_true(fixed, clause[i]))
}

/// What a clause says under fixed values.
enum ClauseStatus {
    /// Some literal is true, or two or more are open.
    Settled,
    /// All literals are false.
    Violated,
    /// All literals but this one, which is open, are false.
    Forces(i32),
}

/// The position of a literal's variable.
fn variable_index(literal: i32) -> (index: usize)
    requires
        literal != 0,
        literal > i32::MIN,
    ensures
        index == variable_of(literal),
{
    if literal < 0 {
        (-literal - 1) as usize
    } else {
        (literal - 1) as usize
    }
}

fn clause_status(clause: &Vec<i32>, fixed: &Vec<Option<bool>>) -> (status: ClauseStatus)
    requires
        clause_in_range(clause@, fixed@.len()),
    ensures
        match status {
            ClauseStatus::Settled => clause_alive(fixed@, clause@),
            ClauseStatus::Violated => forall|model: Seq<bool>|
                agrees(model, fixed@) ==> !#[trigger] clause_holds(model, clause@),
            ClauseStatus::Forces(literal) => {
                &&& literal_in_range(literal, fixed@.len())
                &&& literal_open(fixed@, literal)
                &&& forall|model: Seq<bool>|
                    agrees(model, fixed@) && #[trigger] clause_holds(model, clause@) ==> literal_holds(
                        model,
                        literal,
                    )
            },
        },
{
    let mut found: Option<i32> = None;
    let mut i: usize = 0;
    while i < clause.len()
        invariant
            i <= clause@.len(),
            clause_in_range(clause@, fixed@.len()),
            found matches Some(literal) ==> literal_in_range(literal, fixed@.len()) && literal_open(
                fixed@,
                literal,
            ) && exists|j: int| 0 <= j < i && #[trigger] clause@[j] == literal,
            forall|j: int|
                0 <= j < i ==> !fixed_true(fixed@, #[trigger] clause@[j]) && (literal_open(fixed@, clause@[j])
                    ==> found == Some(clause@[j])),
        decreases clause.len() - i,
    {
        let literal: i32 = clause[i];
        assert(literal_in_range(clause@[i as int], fixed@.len()));
        let v: usize = variable_index(literal);
        match fixed[v] {
            Some(value) => {
                if value == (literal > 0) {
                    assert(fixed_true(fixed@, clause@[i as int]));
                    return ClauseStatus::Settled;
                }
            },
            None => {
                match found {
                    Some(other) => {
                        if other != literal {
                            assert(literal_open(fixed@, clause@[i as int]));
                            return ClauseStatus::Settled;
                        }
                    },
                    None => {
                        found = Some(literal);
                    },
                }
            },
        }
        i += 1;
    }
    match found {
        Some(literal) => {
            proof {
                assert forall|model: Seq<bool>|
                    agrees(model, fixed@) && #[trigger] clause_holds(model, clause@) implies literal_holds(
                    model,
                    literal,
                ) by {
                    let j = choose|j: int| 0 <= j < clause@.len() && literal_holds(model, #[trigger] clause@[j]);
                    assert(literal_in_range(clause@[j], fixed@.len()));
                    if !literal_open(fixed@, clause@[j]) {
                        assert(fixed@[variable_of(clause@[j])] is Some);
                    }
                }
            }
            ClauseStatus::Forces(literal)
        },
        None => {
            proof {
                assert forall|model: Seq<bool>| agrees(model, fixed@) implies !#[trigger] clause_holds(
                    model,
                    clause@,
                ) by {
                    if clause_holds(model, clause@) {
                        let j = choose|j: int|
                            0 <= j < clause@.len() && literal_holds(model, #[trigger] clause@[j]);
                        assert(literal_in_range(clause@[j], fixed@.len()));
                        assert(fixed@[variable_of(clause@[j])] is Some);
                    }
                }
            }
            ClauseStatus::Violated
        },
    }
}

/// Fixes all values that single clauses force. Returns false where a clause is violated.
fn propagate(clauses: &Vec<Vec<i32>>, fixed: &mut Vec<Option<bool>>) -> (consistent: bool)
    requires
        clauses_in_range(clause_seqs(clauses@), old(fixed)@.len()),
    ensures
        final(fixed)@.len() == old(fixed)@.len(),
        open_count(final(fixed)@) <= open_count(old(fixed)@),
        forall|model: Seq<bool>| #[trigger] agrees(model, final(fixed)@) ==> agrees(model, old(fixed)@),
        consistent ==> forall|model: Seq<bool>|
            agrees(model, old(fixed)@) && satisfies(model, clause_seqs(clauses@)) ==> #[trigger] agrees(
                model,
                final(fixed)@,
            ),
        consistent ==> forall|i: int|
            0 <= i < clauses@.len() ==> clause_alive(final(fixed)@, #[trigger] clause_seqs(clauses@)[i]),
        !consistent ==> forall|model: Seq<bool>|
            agrees(model, old(fixed)@) ==> !#[trigger] satisfies(model, clause_seqs(clauses@)),
{
    let ghost start = fixed@;
    let ghost all = clause_seqs(clauses@);
    let mut changed: bool = true;
    while changed
        invariant
            all == clause_seqs(clauses@),
            fixed@.len() == start.len(),
            clauses_in_range(all, start.len()),
            open_count(fixed@) <= open_count(start),
            forall|model: Seq<bool>| #[trigger] agrees(model, fixed@) ==> agrees(model, start),
            forall|model: Seq<bool>|
                agrees(model, start) && satisfies(model, all) ==> #[trigger] agrees(model, fixed@),
            start == old(fixed)@,
            !changed ==> forall|i: int| 0 <= i < all.len() ==> clause_alive(fixed@, #[trigger] all[i]),
        decreases
                open_count(fixed@),
                (if changed {
                    1int
                } else {
                    0int
                }),
    {
        changed = false;
        let ghost before = fixed@;
        let mut i: usize = 0;
        while i < clauses.len()
            invariant
                i <= clauses@.len(),
                all == clause_seqs(clauses@),
                fixed@.len() == start.len(),
                clauses_in_range(all, start.len()),
                start == old(fixed)@,
                open_count(before) <= open_count(start),
                open_count(fixed@) <= open_count(before),
                changed ==> open_count(fixed@) < open_count(before),
                !changed ==> fixed@ == before,
                forall|model: Seq<bool>| #[trigger] agrees(model, fixed@) ==> agrees(model, start),
                forall|model: Seq<bool>|
                    agrees(model, start) && satisfies(model, all) ==> #[trigger] agrees(model, fixed@),
                !changed ==> forall|k: int| 0 <= k < i ==> clause_alive(fixed@, #[trigger] all[k]),
            decreases clauses.len() - i,
        {
            assert(all[i as int] == clauses@[i as int]@);
            assert(clause_in_range(all[i as int], start.len()));
            match clause_status(&clauses[i], fixed) {
                ClauseStatus::Settled => {},
                ClauseStatus::Violated => {
                    proof {
                        assert forall|model: Seq<bool>| agrees(model, start) implies !#[trigger] satisfies(
                            model,
                            all,
                        ) by {
                            if satisfies(model, all) {
                                assert(agrees(model, fixed@));
                                assert(clause_holds(model, all[i as int]));
                            }
                        }
                    }
                    return false;
                },
                ClauseStatus::Forces(literal) => {
                    let v: usize = variable_index(literal);
                    let ghost previous = fixed@;
                    fixed.set(v, Some(literal > 0));
                    proof {
                        lemma_fix_one(previous, v as int, literal > 0);
                        assert forall|model: Seq<bool>| #[trigger] agrees(model, fixed@) implies agrees(
                            model,
                            start,
                        ) by {
                            assert forall|w: int| 0 <= w < previous.len() implies (#[trigger] previous[w] matches Some(
                                value,
                            ) ==> model[w] == value) by {
                                if w != v {
                                    assert(fixed@[w] == previous[w]);
                                }
                            }
                            assert(agrees(model, previous));
                        }
                        assert forall|model: Seq<bool>|
                            agrees(model, start) && satisfies(model, all) implies #[trigger] agrees(
                            model,
                            fixed@,
                        ) by {
                            assert(agrees(model, previous));
                            assert(clause_holds(model, all[i as int]));
                            assert(literal_holds(model, literal));
                        }
                    }
                    changed = true;
                },
            }
            i += 1;
        }
    }
    true
}

/// A copy of a list of values.
pub(crate) fn copy_values(values: &Vec<Option<bool>>) -> (copy: Vec<Option<bool>>)
    ensures
        copy@ == values@,
{
    let mut copy: Vec<Option<bool>> = Vec::new();
    let mut i: usize = 0;
    while i < values.len()
        invariant
            i <= values@.len(),
            copy@ == values@.take(i as int),
        decreases values.len() - i,
    {
        copy.push(values[i]);
        assert(copy@ =~= values@.take(i + 1));
        i += 1;
    }
    assert(copy@ =~= values@);
    copy
}

/// What a search for a model comes to.
pub enum Search {
    /// There is this model.
    Found(Vec<bool>),
    /// There is no model.
    Exhausted,
    /// The time was up before that was known.
    Stopped,
}

/// Searches for a model of the clauses that has the fixed values, as long as there is time.
pub fn find_model(clauses: &Vec<Vec<i32>>, fixed: &Vec<Option<bool>>, deadline: &Deadline) -> (result: Search)
    requires
        clauses_in_range(clause_seqs(clauses@), fixed@.len()),
    ensures
        match result {
            Search::Found(model) => agrees(model@, fixed@) && satisfies(model@, clause_seqs(clauses@)),
            Search::Exhausted => forall|model: Seq<bool>|
                agrees(model, fixed@) ==> !#[trigger] satisfies(model, clause_seqs(clauses@)),
            Search::Stopped => deadline.limit() is Some,
        },
        deadline.limit() == Some(0u64) ==> result is Stopped,
    decreases open_count(fixed@),
{
    if deadline.has_passed() {
        return Search::Stopped;
    }
    let ghost all = clause_seqs(clauses@);
    let mut values: Vec<Option<bool>> = copy_values(fixed);
    if !propagate(clauses, &mut values) {
        return Search::Exhausted;
    }
    let mut model: Vec<bool> = Vec::new();
    let mut v: usize = 0;
    while v < values.len()
        invariant
            v <= values@.len(),
            values@.len() == fixed@.len(),
            all == clause_seqs(clauses@),
            clauses_in_range(all, fixed@.len()),
            deadline.limit() != Some(0u64),
            open_count(values@) <= open_count(fixed@),
            forall|m: Seq<bool>| #[trigger] agrees(m, values@) ==> agrees(m, fixed@),
            forall|m: Seq<bool>|
                agrees(m, fixed@) && satisfies(m, all) ==> #[trigger] agrees(m, values@),
            forall|i: int| 0 <= i < all.len() ==> clause_alive(values@, #[trigger] all[i]),
            model@.len() == v,
            forall|w: int| 0 <= w < v ==> #[trigger] values@[w] == Some(model@[w]),
        decreases values.len() - v,
    {
        match values[v] {
            Some(value) => {
                model.push(value);
            },
            None => {
                let ghost before = values@;
                values.set(v, Some(true));
                proof {
                    lemma_fix_one(before, v as int, true);
                    lemma_fix_one(before, v as int, false);
                }
                match find_model(clauses, &values, deadline) {
                    Search::Found(found) => {
                        proof {
                            assert forall|w: int| 0 <= w < before.len() implies (#[trigger] before[w] matches Some(
                                value,
                            ) ==> found@[w] == value) by {
                                if w != v {
                                    assert(values@[w] == before[w]);
                                }
                            }
                            assert(agrees(found@, before));
                        }
                        return Search::Found(found);
                    },
                    Search::Exhausted => {},
                    Search::Stopped => {
                        return Search::Stopped;
                    },
                }
                let ghost high = values@;
                values.set(v, Some(false));
                assert(values@ =~= before.update(v as int, Some(false)));
                match find_model(clauses, &values, deadline) {
                    Search::Found(found) => {
                        proof {
                            assert forall|w: int| 0 <= w < before.len() implies (#[trigger] before[w] matches Some(
                                value,
                            ) ==> found@[w] == value) by {
                                if w != v {
                                    assert(values@[w] == before[w]);
                                }
                            }
                            assert(agrees(found@, before));
                        }
                        return Search::Found(found);
                    },
                    Search::Stopped => {
                        return Search::Stopped;
                    },
                    Search::Exhausted => {
                        proof {
                            assert forall|m: Seq<bool>| agrees(m, fixed@) implies !#[trigger] satisfies(m, all) by {
                                if satisfies(m, all) {
                                    assert(agrees(m, before));
                                    if m[v as int] {
                                        assert(agrees(m, high));
                                    } else {
                                        assert(agrees(m, values@));
                                    }
                                }
                            }
                        }
                        return Search::Exhausted;
                    },
                }
            },
        }
        v += 1;
    }
    proof {
        assert(agrees(model@, values@));
        assert forall|i: int| 0 <= i < all.len() implies clause_holds(model@, #[trigger] all[i]) by {
            assert(clause_alive(values@, all[i]));
            assert(clause_in_range(all[i], fixed@.len()));
            let j = choose|j: int|
                0 <= j < all[i].len() && (literal_open(values@, #[trigger] all[i][j]) || fixed_true(
                    values@,
                    all[i][j],
                ));
            assert(literal_in_range(all[i][j], fixed@.len()));
            assert(values@[variable_of(all[i][j])] == Some(model@[variable_of(all[i][j])]));
            assert(literal_holds(model@, all[i][j]));
        }
    }
    Search::Found(model)
}

} // verus!
