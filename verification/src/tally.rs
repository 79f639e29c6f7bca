//! Counting how often lists of names occur.

use crate::text::{same_text, text_before};
use crate::text;
use vstd::prelude::*;

verus! {

/// A list of names.
pub type Names = Seq<Seq<char>>;

/// The texts of names.
pub open spec fn names_of(names: Seq<&'static str>) -> Names {
    Seq::new(names.len(), |i: int| names[i]@)
}

/// One list of names comes before another: name by name, a shorter list before its
/// continuations.
pub open spec fn names_less(a: Names, b: Names) -> bool
    decreases b.len(),
{
    if b.len() == 0 {
        false
    } else if a.len() == 0 {
        true
    } else if a[0] == b[0] {
        names_less(a.drop_first(), b.drop_first())
    } else {
        text::text_less(a[0], b[0])
    }
}

/// How often a value occurs in a list.
pub open spec fn occurrences<T>(list: Seq<T>, value: T) -> nat
    decreases list.len(),
{
    if list.len() == 0 {
        0
    } else {
        occurrences(list.drop_last(), value) + (if list.last() == value {
            1nat
        } else {
            0
        })
    }
}

/// No list comes before itself.
pub proof fn lemma_names_irreflexive(a: Names)
    ensures
        !names_less(a, a),
    decreases a.len(),
{
    if a.len() > 0 {
        lemma_names_irreflexive(a.drop_first());
    }
}

/// The order of lists is transitive.
pub proof fn lemma_names_transitive(a: Names, b: Names, c: Names)
    requires
        names_less(a, b),
        names_less(b, c),
    ensures
        names_less(a, c),
    decreases c.len(),
{
    if a.len() > 0 && b.len() > 0 && c.len() > 0 {
        if a[0] == b[0] && b[0] == c[0] {
            lemma_names_transitive(a.drop_first(), b.drop_first(), c.drop_first());
        } else if a[0] != b[0] && b[0] != c[0] {
            text::lemma_text_less_transitive(a[0], b[0], c[0]);
            text::lemma_text_less_irreflexive(a[0]);
        }
    }
}

/// Of two different lists one comes before the other.
pub proof fn lemma_names_total(a: Names, b: Names)
    ensures
        a == b || names_less(a, b) || names_less(b, a),
    decreases a.len(),
{
    if a.len() > 0 && b.len() > 0 {
        if a[0] == b[0] {
            lemma_names_total(a.drop_first(), b.drop_first());
            if a.drop_first() == b.drop_first() {
                assert(a =~= seq![a[0]] + a.drop_first());
                assert(b =~= seq![b[0]] + b.drop_first());
            }
        } else {
            text::lemma_text_less_total(a[0], b[0]);
        }
    } else if a.len() == 0 && b.len() == 0 {
        assert(a =~= b);
    }
}

/// A value that occurs is counted.
pub proof fn lemma_occurs<T>(list: Seq<T>, value: T)
    ensures
        occurrences(list, value) > 0 <==> list.contains(value),
        occurrences(list, value) <= list.len(),
    decreases list.len(),
{
    if list.len() > 0 {
        let rest = list.drop_last();
        lemma_occurs(rest, value);
        if rest.contains(value) {
            let i = choose|i: int| 0 <= i < rest.len() && rest[i] == value;
            assert(list[i] == value);
        }
        if list.contains(value) && list.last() != value {
            let i = choose|i: int| 0 <= i < list.len() && list[i] == value;
            assert(rest[i] == value);
        }
        if list.last() == value {
            assert(list[list.len() - 1] == value);
        }
    }
}

/// One more value.
pub proof fn lemma_occurrences_push<T>(list: Seq<T>, more: T, value: T)
    ensures
        occurrences(list.push(more), value) == occurrences(list, value) + (if more == value {
            1nat
        } else {
            0
        }),
{
    assert(list.push(more).drop_last() =~= list);
}

/// A counted list of names.
#[derive(Debug)]
pub struct Tally {
    pub names: Vec<&'static str>,
    pub count: usize,
}

/// Counted lists stand in ascending order.
pub open spec fn sorted_tallies(rows: Seq<Tally>) -> bool {
    forall|i: int, j: int| #![trigger rows[i], rows[j]]
        0 <= i < j < rows.len() ==> names_less(names_of(rows[i].names@), names_of(rows[j].names@))
}

/// The lists that occur, in ascending order, each with the number of its occurrences.
pub open spec fn is_tally(rows: Seq<Tally>, list: Seq<Names>) -> bool {
    &&& sorted_tallies(rows)
    &&& forall|i: int|
        0 <= i < rows.len() ==> (#[trigger] rows[i]).count == occurrences(list, names_of(rows[i].names@))
            && rows[i].count > 0
    &&& forall|key: Names| #[trigger]
        list.contains(key) ==> exists|i: int| 0 <= i < rows.len() && names_of((#[trigger] rows[i]).names@) == key
}

/// Whether two lists of names are the same.
pub fn same_names(a: &Vec<&'static str>, b: &Vec<&'static str>) -> (same: bool)
    ensures
        same == (names_of(a@) == names_of(b@)),
{
    let ghost left = names_of(a@);
    let ghost right = names_of(b@);
    if a.len() != b.len() {
        assert(left.len() != right.len());
        return false;
    }
    let mut i: usize = 0;
    while i < a.len()
        invariant
            i <= a@.len(),
            a@.len() == b@.len(),
            left == names_of(a@),
            right == names_of(b@),
            forall|k: int| 0 <= k < i ==> #[trigger] left[k] == right[k],
        decreases a.len() - i,
    {
        if !same_text(a[i], b[i]) {
            assert(left[i as int] != right[i as int]);
            return false;
        }
        assert(left[i as int] == right[i as int]);
        i += 1;
    }
    assert(left =~= right);
    true
}

/// Whether one list of names comes before another.
pub fn names_before(a: &Vec<&'static str>, b: &Vec<&'static str>) -> (before: bool)
    ensures
        before == names_less(names_of(a@), names_of(b@)),
{
    let ghost left = names_of(a@);
    let ghost right = names_of(b@);
    let mut i: usize = 0;
    assert(left.skip(0) =~= left);
    assert(right.skip(0) =~= right);
    while i < a.len() && i < b.len()
        invariant
            i <= a@.len(),
            i <= b@.len(),
            left == names_of(a@),
            right == names_of(b@),
            names_less(left, right) == names_less(left.skip(i as int), right.skip(i as int)),
        decreases a.len() - i,
    {
        assert(left.skip(i as int)[0] == left[i as int]);
        assert(right.skip(i as int)[0] == right[i as int]);
        if !same_text(a[i], b[i]) {
            return text_before(a[i], b[i]);
        }
        assert(left.skip(i as int).drop_first() =~= left.skip(i + 1));
        assert(right.skip(i as int).drop_first() =~= right.skip(i + 1));
        i += 1;
    }
    i < b.len()
}

/// Counts one more list of names.
pub(crate) fn add_names(rows: &mut Vec<Tally>, names: Vec<&'static str>, list: Ghost<Seq<Names>>)
    requires
        is_tally(old(rows)@, list@),
        list@.len() < usize::MAX,
    ensures
        is_tally(final(rows)@, list@.push(names_of(names@))),
{
    let ghost key = names_of(names@);
    let ghost all = list@.push(key);
    let mut at: usize = 0;
    while at < rows.len() && names_before(&rows[at].names, &names)
        invariant
            at <= rows@.len(),
            rows@ == old(rows)@,
            key == names_of(names@),
            forall|j: int| 0 <= j < at ==> names_less(names_of((#[trigger] rows@[j]).names@), key),
        decreases rows.len() - at,
    {
        at += 1;
    }
    let ghost before = rows@;
    proof {
        assert forall|k: Names| #[trigger] occurrences(all, k) == occurrences(list@, k) + (if key == k {
            1nat
        } else {
            0
        }) by {
            lemma_occurrences_push(list@, key, k);
        }
        lemma_occurs(list@, key);
    }
    if at < rows.len() && same_names(&rows[at].names, &names) {
        let count: usize = rows[at].count;
        rows.set(at, Tally { names, count: count + 1 });
        proof {
            assert forall|i: int, j: int| #![trigger rows@[i], rows@[j]] 0 <= i < j < rows@.len() implies names_less(
                names_of(rows@[i].names@),
                names_of(rows@[j].names@),
            ) by {
                assert(names_less(names_of(before[i].names@), names_of(before[j].names@)));
            }
            assert forall|i: int| 0 <= i < rows@.len() implies (#[trigger] rows@[i]).count == occurrences(
                all,
                names_of(rows@[i].names@),
            ) && rows@[i].count > 0 by {
                assert(before[i].count == occurrences(list@, names_of(before[i].names@)));
                if i < at {
                    assert(names_less(names_of(before[i].names@), names_of(before[at as int].names@)));
                    lemma_names_irreflexive(key);
                } else if i > at {
                    assert(names_less(names_of(before[at as int].names@), names_of(before[i].names@)));
                    lemma_names_irreflexive(key);
                }
            }
            assert forall|k: Names| #[trigger] all.contains(k) implies exists|i: int|
                0 <= i < rows@.len() && names_of((#[trigger] rows@[i]).names@) == k by {
                if k == key {
                    assert(names_of(rows@[at as int].names@) == key);
                } else {
                    let m = choose|m: int| 0 <= m < all.len() && all[m] == k;
                    assert(list@[m] == k);
                    assert(list@.contains(k));
                    let i = choose|i: int| 0 <= i < before.len() && names_of((#[trigger] before[i]).names@) == k;
                    assert(names_of(rows@[i].names@) == k);
                }
            }
        }
    } else {
        proof {
            assert forall|j: int| at <= j < before.len() implies names_less(
                key,
                names_of((#[trigger] before[j]).names@),
            ) by {
                lemma_names_total(key, names_of(before[at as int].names@));
                if j > at {
                    assert(names_less(names_of(before[at as int].names@), names_of(before[j].names@)));
                    lemma_names_transitive(
                        key,
                        names_of(before[at as int].names@),
                        names_of(before[j].names@),
                    );
                }
            }
            if list@.contains(key) {
                let i = choose|i: int| 0 <= i < before.len() && names_of((#[trigger] before[i]).names@) == key;
                lemma_names_irreflexive(key);
                assert(false);
            }
        }
        rows.insert(at, Tally { names, count: 1 });
        proof {
            assert(rows@ =~= before.insert(at as int, rows@[at as int]));
            assert forall|i: int, j: int| #![trigger rows@[i], rows@[j]] 0 <= i < j < rows@.len() implies names_less(
                names_of(rows@[i].names@),
                names_of(rows@[j].names@),
            ) by {
                let a = if i < at { i } else { i - 1 };
                let b = if j < at { j } else { j - 1 };
                if i != at {
                    assert(rows@[i] == before[a]);
                }
                if j != at {
                    assert(rows@[j] == before[b]);
                }
            }
            assert forall|i: int| 0 <= i < rows@.len() implies (#[trigger] rows@[i]).count == occurrences(
                all,
                names_of(rows@[i].names@),
            ) && rows@[i].count > 0 by {
                if i != at {
                    let a = if i < at { i } else { i - 1 };
                    assert(rows@[i] == before[a]);
                    assert(before[a].count == occurrences(list@, names_of(before[a].names@)));
                    lemma_names_irreflexive(key);
                }
            }
            assert forall|k: Names| #[trigger] all.contains(k) implies exists|i: int|
                0 <= i < rows@.len() && names_of((#[trigger] rows@[i]).names@) == k by {
                if k == key {
                    assert(names_of(rows@[at as int].names@) == key);
                } else {
                    let m = choose|m: int| 0 <= m < all.len() && all[m] == k;
                    assert(list@[m] == k);
                    assert(list@.contains(k));
                    let i = choose|i: int| 0 <= i < before.len() && names_of((#[trigger] before[i]).names@) == k;
                    let b = if i < at { i } else { i + 1 };
                    assert(rows@[b] == before[i]);
                }
            }
        }
    }
}

} // verus!
