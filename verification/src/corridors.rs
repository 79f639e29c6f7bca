//! Links between neighbouring pieces, and corridors of links.
//!
//! A link says by which vectors the origin of one piece may stand from that of another. A
//! corridor is a chain of links through pieces that nothing else is linked to: it allows
//! every sum of vectors, one of each link.

use std::collections::BTreeMap;
use vstd::prelude::*;

verus! {

broadcast use vstd::laws_cmp::group_laws_cmp;

/// A vector, or the origin of a piece.
pub type Vector = (int, int);

/// The vector of machine numbers.
pub open spec fn vector(d: (i128, i128)) -> Vector {
    (d.0 as int, d.1 as int)
}

/// The sum of two vectors.
pub open spec fn plus(a: Vector, b: Vector) -> Vector {
    (a.0 + b.0, a.1 + b.1)
}

/// The difference of two vectors.
pub open spec fn minus(a: Vector, b: Vector) -> Vector {
    (a.0 - b.0, a.1 - b.1)
}

/// A list holds a vector.
pub open spec fn holds(list: Seq<(i128, i128)>, d: Vector) -> bool {
    exists|i: int| 0 <= i < list.len() && vector(#[trigger] list[i]) == d
}

/// All vectors of a list are short.
pub open spec fn short(list: Seq<(i128, i128)>, limit: int) -> bool {
    forall|i: int|
        0 <= i < list.len() ==> -limit <= (#[trigger] list[i]).0 <= limit && -limit <= list[i].1 <= limit
}

/// A link from one piece to another, with the vectors that it allows; the first of them is
/// the one that it prefers.
#[derive(Debug)]
pub struct Link {
    pub from: usize,
    pub to: usize,
    pub deltas: Vec<(i128, i128)>,
}

/// The vector is a sum of vectors, one of each of the first `k` lists.
pub open spec fn is_sum(lists: Seq<Seq<(i128, i128)>>, k: nat, d: Vector) -> bool
    decreases k,
{
    if k == 0 {
        d == (0int, 0int)
    } else {
        exists|i: int|
            0 <= i < lists[k - 1].len() && is_sum(lists, (k - 1) as nat, minus(d, vector(#[trigger] lists[k - 1][i])))
    }
}

/// The sum of the first vectors of the first `k` lists.
pub open spec fn first_sum(lists: Seq<Seq<(i128, i128)>>, k: nat) -> Vector
    decreases k,
{
    if k == 0 {
        (0int, 0int)
    } else {
        plus(first_sum(lists, (k - 1) as nat), vector(lists[k - 1][0]))
    }
}

/// No list is empty, and all vectors are short.
pub open spec fn proper(lists: Seq<Seq<(i128, i128)>>, limit: int) -> bool {
    forall|k: int| 0 <= k < lists.len() ==> (#[trigger] lists[k]).len() > 0 && short(lists[k], limit)
}

pub proof fn lemma_first_is_sum(lists: Seq<Seq<(i128, i128)>>, limit: int, k: nat)
    requires
        proper(lists, limit),
        k <= lists.len(),
    ensures
        is_sum(lists, k, first_sum(lists, k)),
    decreases k,
{
    if k > 0 {
        lemma_first_is_sum(lists, limit, (k - 1) as nat);
        let d = first_sum(lists, k);
        assert(minus(d, vector(lists[k - 1][0])) == first_sum(lists, (k - 1) as nat));
        assert(lists[k - 1].len() > 0);
    }
}

/// A sum of short vectors is not long.
pub proof fn lemma_sum_short(lists: Seq<Seq<(i128, i128)>>, limit: int, k: nat, d: Vector)
    requires
        proper(lists, limit),
        0 <= limit,
        k <= lists.len(),
        is_sum(lists, k, d),
    ensures
        -(k * limit) <= d.0 <= k * limit,
        -(k * limit) <= d.1 <= k * limit,
    decreases k,
{
    if k > 0 {
        let i = choose|i: int|
            0 <= i < lists[k - 1].len() && is_sum(
                lists,
                (k - 1) as nat,
                minus(d, vector(#[trigger] lists[k - 1][i])),
            );
        lemma_sum_short(lists, limit, (k - 1) as nat, minus(d, vector(lists[k - 1][i])));
        assert(short(lists[k - 1], limit));
        assert((k - 1) * limit + limit == k * limit) by (nonlinear_arith);
    }
}

/// The vectors of lists.
pub open spec fn list_views(lists: Seq<Vec<(i128, i128)>>) -> Seq<Seq<(i128, i128)>> {
    Seq::new(lists.len(), |k: int| lists[k]@)
}

/// Whether a list holds a vector.
pub fn has_vector(list: &Vec<(i128, i128)>, d: (i128, i128)) -> (found: bool)
    ensures
        found == holds(list@, vector(d)),
{
    let mut k: usize = 0;
    while k < list.len()
        invariant
            k <= list@.len(),
            forall|i: int| 0 <= i < k ==> vector(#[trigger] list@[i]) != vector(d),
        decreases list.len() - k,
    {
        let other: (i128, i128) = list[k];
        if other.0 == d.0 && other.1 == d.1 {
            assert(vector(list@[k as int]) == vector(d));
            return true;
        }
        assert(vector(list@[k as int]) != vector(d));
        k += 1;
    }
    false
}

pub proof fn lemma_holds_push(list: Seq<(i128, i128)>, d: (i128, i128))
    ensures
        forall|v: Vector| #[trigger] holds(list.push(d), v) <==> holds(list, v) || v == vector(d),
{
    assert forall|v: Vector| #[trigger] holds(list.push(d), v) <==> holds(list, v) || v == vector(d) by {
        let more = list.push(d);
        if holds(list, v) {
            let i = choose|i: int| 0 <= i < list.len() && vector(#[trigger] list[i]) == v;
            assert(more[i] == list[i]);
        }
        if v == vector(d) {
            assert(more[list.len() as int] == d);
        }
        if holds(more, v) {
            let i = choose|i: int| 0 <= i < more.len() && vector(#[trigger] more[i]) == v;
            if i < list.len() {
                assert(list[i] == more[i]);
            }
        }
    }
}

/// A set of vectors.
pub struct VectorSet {
    map: BTreeMap<(i128, i128), bool>,
}

impl VectorSet {
    /// The vector is in the set.
    pub closed spec fn has(&self, d: (i128, i128)) -> bool {
        self.map@.contains_key(d)
    }

    /// The vectors of the set are those of a list.
    pub open spec fn gathers(&self, list: Seq<(i128, i128)>) -> bool {
        forall|d: (i128, i128)| #[trigger] self.has(d) <==> holds(list, vector(d))
    }

    /// The empty set.
    pub(crate) fn new() -> (set: Self)
        ensures
            set.gathers(Seq::<(i128, i128)>::empty()),
    {
        VectorSet { map: BTreeMap::new() }
    }

    /// Whether the vector is in the set.
    pub(crate) fn contains(&self, d: (i128, i128)) -> (found: bool)
        ensures
            found == self.has(d),
    {
        self.map.contains_key(&d)
    }

    /// Adds a vector.
    pub(crate) fn insert(&mut self, d: (i128, i128))
        ensures
            forall|e: (i128, i128)| #[trigger] final(self).has(e) <==> old(self).has(e) || e == d,
    {
        self.map.insert(d, true);
    }

    /// The vectors of a list.
    pub(crate) fn of(list: &Vec<(i128, i128)>) -> (set: Self)
        ensures
            set.gathers(list@),
    {
        let mut set: VectorSet = VectorSet::new();
        let mut k: usize = 0;
        assert(list@.take(0) =~= Seq::<(i128, i128)>::empty());
        while k < list.len()
            invariant
                k <= list@.len(),
                set.gathers(list@.take(k as int)),
            decreases list.len() - k,
        {
            proof {
                assert(list@.take(k + 1) =~= list@.take(k as int).push(list@[k as int]));
                lemma_holds_push(list@.take(k as int), list@[k as int]);
            }
            set.insert(list[k]);
            k += 1;
        }
        assert(list@.take(k as int) =~= list@);
        set
    }
}

/// The vector is the sum of a vector of each list.
pub open spec fn is_pair_sum(a: Seq<(i128, i128)>, b: Seq<(i128, i128)>, d: Vector) -> bool {
    exists|i: int, j: int| #![trigger a[i], b[j]]
        0 <= i < a.len() && 0 <= j < b.len() && d == plus(vector(a[i]), vector(b[j]))
}

/// The sum of a vector of the one list with the vector of the other leaves a rest.
pub proof fn lemma_pair_sum(a: Seq<(i128, i128)>, b: Seq<(i128, i128)>, d: Vector)
    ensures
        is_pair_sum(a, b, d) <==> exists|j: int| 0 <= j < b.len() && holds(a, minus(d, vector(#[trigger] b[j]))),
{
    if is_pair_sum(a, b, d) {
        let (i, j) = choose|i: int, j: int| #![trigger a[i], b[j]]
            0 <= i < a.len() && 0 <= j < b.len() && d == plus(vector(a[i]), vector(b[j]));
        assert(vector(a[i]) == minus(d, vector(b[j])));
        assert(holds(a, minus(d, vector(b[j]))));
    }
    if exists|j: int| 0 <= j < b.len() && holds(a, minus(d, vector(#[trigger] b[j]))) {
        let j = choose|j: int| 0 <= j < b.len() && holds(a, minus(d, vector(#[trigger] b[j])));
        let i = choose|i: int| 0 <= i < a.len() && vector(#[trigger] a[i]) == minus(d, vector(b[j]));
        assert(d == plus(vector(a[i]), vector(b[j])));
    }
}

/// A list without repeats stays one when it gets a vector that it did not hold.
proof fn lemma_new_vector(list: Seq<(i128, i128)>, d: (i128, i128))
    requires
        list.no_duplicates(),
        !holds(list, vector(d)),
    ensures
        list.push(d).no_duplicates(),
{
    let more = list.push(d);
    assert forall|i: int, j: int| 0 <= i < more.len() && 0 <= j < more.len() && i != j implies more[i] != more[j] by {
        if i < list.len() && more[i] == d {
            assert(vector(list[i]) == vector(d));
        }
        if j < list.len() && more[j] == d {
            assert(vector(list[j]) == vector(d));
        }
    }
}

/// The sums of a vector of each list, each once.
pub(crate) fn extend_sums(sums: &Vec<(i128, i128)>, list: &Vec<(i128, i128)>, bound: i128, limit: i128) -> (next: Vec<
    (i128, i128),
>)
    requires
        short(sums@, bound as int),
        short(list@, limit as int),
        0 <= bound,
        0 <= limit,
        bound + limit <= 0x3f_ffff_ffff_ffff_ffff_ffff_ffff_ffff,
    ensures
        forall|d: Vector| #[trigger] holds(next@, d) <==> is_pair_sum(sums@, list@, d),
        next@.no_duplicates(),
{
    let mut next: Vec<(i128, i128)> = Vec::new();
    let mut seen: VectorSet = VectorSet::new();
    let mut i: usize = 0;
    while i < sums.len()
        invariant
            seen.gathers(next@),
            next@.no_duplicates(),
            short(sums@, bound as int),
            short(list@, limit as int),
            0 <= bound,
            0 <= limit,
            bound + limit <= 0x3f_ffff_ffff_ffff_ffff_ffff_ffff_ffff,
            i <= sums@.len(),
            forall|d: Vector| #[trigger]
                holds(next@, d) <==> exists|a: int, b: int| #![trigger sums@[a], list@[b]]
                    0 <= a < i && 0 <= b < list@.len() && d == plus(vector(sums@[a]), vector(list@[b])),
        decreases sums.len() - i,
    {
        let sum: (i128, i128) = sums[i];
        assert(-bound <= sums@[i as int].0 <= bound);
        let mut j: usize = 0;
        while j < list.len()
            invariant
                seen.gathers(next@),
                next@.no_duplicates(),
                i < sums@.len(),
                sum == sums@[i as int],
                -bound <= sum.0 <= bound,
                -bound <= sum.1 <= bound,
                short(list@, limit as int),
                0 <= bound,
                0 <= limit,
                bound + limit <= 0x3f_ffff_ffff_ffff_ffff_ffff_ffff_ffff,
                j <= list@.len(),
                forall|d: Vector| #[trigger]
                    holds(next@, d) <==> exists|a: int, b: int| #![trigger sums@[a], list@[b]]
                        0 <= a <= i && 0 <= b < list@.len() && (a < i || b < j) && d == plus(
                            vector(sums@[a]),
                            vector(list@[b]),
                        ),
            decreases list.len() - j,
        {
            let step: (i128, i128) = list[j];
            assert(-limit <= list@[j as int].0 <= limit);
            let total: (i128, i128) = (sum.0 + step.0, sum.1 + step.1);
            let ghost before = next@;
            assert(vector(total) == plus(vector(sums@[i as int]), vector(list@[j as int])));
            if !seen.contains(total) {
                proof {
                    lemma_holds_push(next@, total);
                    lemma_new_vector(next@, total);
                }
                seen.insert(total);
                next.push(total);
            }
            proof {
                assert forall|d: Vector| #[trigger]
                    holds(next@, d) <==> exists|a: int, b: int| #![trigger sums@[a], list@[b]]
                        0 <= a <= i && 0 <= b < list@.len() && (a < i || b < j + 1) && d == plus(
                            vector(sums@[a]),
                            vector(list@[b]),
                        ) by {
                    assert(holds(next@, d) <==> holds(before, d) || d == vector(total));
                    if d == vector(total) {
                        assert(d == plus(vector(sums@[i as int]), vector(list@[j as int])));
                    }
                }
            }
            j += 1;
        }
        i += 1;
    }
    next
}

/// Vectors that are sums are not long.
pub proof fn lemma_sums_short(lists: Seq<Seq<(i128, i128)>>, limit: int, k: nat, sums: Seq<(i128, i128)>)
    requires
        proper(lists, limit),
        0 <= limit,
        k <= lists.len(),
        forall|d: Vector| #[trigger] holds(sums, d) <==> is_sum(lists, k, d),
    ensures
        short(sums, k * limit),
{
    assert forall|i: int| 0 <= i < sums.len() implies -(k * limit) <= (#[trigger] sums[i]).0 <= k * limit && -(k
        * limit) <= sums[i].1 <= k * limit by {
        assert(holds(sums, vector(sums[i])));
        lemma_sum_short(lists, limit, k, vector(sums[i]));
    }
}

/// One more list.
pub proof fn lemma_next_sums(lists: Seq<Seq<(i128, i128)>>, k: nat, sums: Seq<(i128, i128)>, next: Seq<(i128, i128)>)
    requires
        k < lists.len(),
        forall|d: Vector| #[trigger] holds(sums, d) <==> is_sum(lists, k, d),
        forall|d: Vector| #[trigger] holds(next, d) <==> is_pair_sum(sums, lists[k as int], d),
    ensures
        forall|d: Vector| #[trigger] holds(next, d) <==> is_sum(lists, k + 1, d),
{
    assert forall|d: Vector| #[trigger] holds(next, d) <==> is_sum(lists, k + 1, d) by {
        lemma_pair_sum(sums, lists[k as int], d);
        if is_pair_sum(sums, lists[k as int], d) {
            let j = choose|j: int|
                0 <= j < lists[k as int].len() && holds(sums, minus(d, vector(#[trigger] lists[k as int][j])));
            assert(is_sum(lists, k, minus(d, vector(lists[(k + 1) - 1][j]))));
        }
        if is_sum(lists, k + 1, d) {
            let j = choose|j: int|
                0 <= j < lists[k as int].len() && is_sum(lists, k, minus(d, vector(#[trigger] lists[k as int][j])));
            assert(holds(sums, minus(d, vector(lists[k as int][j]))));
        }
    }
}

/// All sums, each once.
pub(crate) fn sum_lists(lists: &Vec<Vec<(i128, i128)>>, limit: i128) -> (sums: Vec<(i128, i128)>)
    requires
        proper(list_views(lists@), limit as int),
        0 <= limit,
        lists@.len() * limit <= 0x7f_ffff_ffff_ffff_ffff_ffff_ffff,
    ensures
        forall|d: Vector| #[trigger] holds(sums@, d) <==> is_sum(list_views(lists@), lists@.len(), d),
        sums@.no_duplicates(),
{
    let ghost views = list_views(lists@);
    let mut sums: Vec<(i128, i128)> = Vec::new();
    proof {
        lemma_holds_push(Seq::empty(), (0, 0));
    }
    sums.push((0, 0));
    let mut k: usize = 0;
    while k < lists.len()
        invariant
            k <= lists@.len(),
            views == list_views(lists@),
            proper(views, limit as int),
            0 <= limit,
            lists@.len() * limit <= 0x7f_ffff_ffff_ffff_ffff_ffff_ffff,
            sums@.no_duplicates(),
            forall|d: Vector| #[trigger] holds(sums@, d) <==> is_sum(views, k as nat, d),
        decreases lists.len() - k,
    {
        proof {
            lemma_sums_short(views, limit as int, k as nat, sums@);
            assert(views[k as int] == lists@[k as int]@);
            assert(k * limit <= lists@.len() * limit) by (nonlinear_arith)
                requires
                    k < lists@.len(),
                    0 <= limit,
            ;
            assert(limit <= lists@.len() * limit) by (nonlinear_arith)
                requires
                    0 < lists@.len(),
                    0 <= limit,
            ;
            lemma_short_more(sums@, k * limit, 0x7f_ffff_ffff_ffff_ffff_ffff_ffff);
        }
        let next: Vec<(i128, i128)> = extend_sums(&sums, &lists[k], 0x7f_ffff_ffff_ffff_ffff_ffff_ffff, limit);
        proof {
            lemma_next_sums(views, k as nat, sums@, next@);
        }
        sums = next;
        k += 1;
    }
    sums
}

/// Short vectors are short by a greater measure.
pub proof fn lemma_short_more(list: Seq<(i128, i128)>, limit: int, more: int)
    requires
        short(list, limit),
        limit <= more,
    ensures
        short(list, more),
{
    assert forall|i: int| 0 <= i < list.len() implies -more <= (#[trigger] list[i]).0 <= more && -more <= list[i].1
        <= more by {
        assert(-limit <= list[i].0 <= limit);
    }
}

/// The coordinate along which vectors vary.
pub open spec fn along(d: Vector, upright: bool) -> int {
    if upright {
        d.1
    } else {
        d.0
    }
}

/// The other coordinate.
pub open spec fn beside(d: Vector, upright: bool) -> int {
    along(d, !upright)
}

/// The number is a sum of numbers, one of each of the first `k` lists.
pub open spec fn is_total(lists: Seq<Seq<i128>>, k: nat, s: int) -> bool
    decreases k,
{
    if k == 0 {
        s == 0
    } else {
        exists|i: int| 0 <= i < lists[k - 1].len() && is_total(lists, (k - 1) as nat, s - #[trigger] lists[k - 1][i])
    }
}

/// The numbers are the coordinates of the vectors.
pub open spec fn are_coordinates(values: Seq<i128>, list: Seq<(i128, i128)>, upright: bool) -> bool {
    &&& values.len() > 0
    &&& forall|i: int| 0 <= i < values.len() ==> has_coordinate(list, #[trigger] values[i] as int, upright)
    &&& forall|i: int| 0 <= i < list.len() ==> values.contains(along64(#[trigger] list[i], upright))
}

/// The coordinate of a vector of machine numbers.
pub open spec fn along64(d: (i128, i128), upright: bool) -> i128 {
    if upright {
        d.1
    } else {
        d.0
    }
}

/// Some vector has the coordinate.
pub open spec fn has_coordinate(list: Seq<(i128, i128)>, value: int, upright: bool) -> bool {
    exists|i: int| 0 <= i < list.len() && along(vector(#[trigger] list[i]), upright) == value
}

/// All vectors have the same other coordinate.
pub open spec fn keeps(list: Seq<(i128, i128)>, value: int, upright: bool) -> bool {
    forall|i: int| 0 <= i < list.len() ==> beside(vector(#[trigger] list[i]), upright) == value
}

/// Vectors that vary along one coordinate add up as numbers.
proof fn lemma_axis_sum(
    lists: Seq<Seq<(i128, i128)>>,
    values: Seq<Seq<i128>>,
    fixed: Seq<int>,
    upright: bool,
    k: nat,
    d: Vector,
)
    requires
        k <= lists.len(),
        k <= values.len(),
        k <= fixed.len(),
        forall|j: int| 0 <= j < k ==> are_coordinates(#[trigger] values[j], lists[j], upright),
        forall|j: int| 0 <= j < k ==> keeps(lists[j], #[trigger] fixed[j], upright),
    ensures
        is_sum(lists, k, d) <==> is_total(values, k, along(d, upright)) && beside(d, upright) == seq_total(fixed, k),
    decreases k,
{
    if k > 0 {
        let list = lists[k - 1];
        let numbers = values[k - 1];
        assert(are_coordinates(numbers, list, upright));
        assert(keeps(list, fixed[k - 1], upright));
        if is_sum(lists, k, d) {
            let i = choose|i: int|
                0 <= i < list.len() && is_sum(lists, (k - 1) as nat, minus(d, vector(#[trigger] list[i])));
            lemma_axis_sum(lists, values, fixed, upright, (k - 1) as nat, minus(d, vector(list[i])));
            let j = numbers.index_of(along64(list[i], upright));
            assert(numbers.contains(along64(list[i], upright)));
            assert(is_total(values, (k - 1) as nat, along(d, upright) - numbers[j]));
        }
        if is_total(values, k, along(d, upright)) && beside(d, upright) == seq_total(fixed, k) {
            let j = choose|j: int|
                0 <= j < numbers.len() && is_total(values, (k - 1) as nat, along(d, upright) - #[trigger] numbers[j]);
            assert(has_coordinate(list, numbers[j] as int, upright));
            let i = choose|i: int| 0 <= i < list.len() && along(vector(#[trigger] list[i]), upright) == numbers[j];
            assert(beside(vector(list[i]), upright) == fixed[k - 1]);
            lemma_axis_sum(lists, values, fixed, upright, (k - 1) as nat, minus(d, vector(list[i])));
            assert(is_sum(lists, (k - 1) as nat, minus(d, vector(list[i]))));
        }
    }
}

/// The sum of the first `k` numbers.
pub open spec fn seq_total(numbers: Seq<int>, k: nat) -> int
    decreases k,
{
    if k == 0 {
        0
    } else {
        seq_total(numbers, (k - 1) as nat) + numbers[k - 1]
    }
}

/// The numbers go up by equal steps.
pub open spec fn even(values: Seq<i128>, step: int) -> bool {
    forall|i: int| 0 <= i < values.len() ==> #[trigger] values[i] == values[0] + i * step
}

/// The sum of the least numbers of the first `k` lists.
pub open spec fn low_total(lists: Seq<Seq<i128>>, k: nat) -> int
    decreases k,
{
    if k == 0 {
        0
    } else {
        low_total(lists, (k - 1) as nat) + lists[k - 1][0]
    }
}

/// The number of steps from the least to the greatest sum.
pub open spec fn step_total(lists: Seq<Seq<i128>>, k: nat) -> nat
    decreases k,
{
    if k == 0 {
        0
    } else {
        step_total(lists, (k - 1) as nat) + (lists[k - 1].len() - 1) as nat
    }
}

/// Sums of numbers that go up by the same steps.
proof fn lemma_even_total(lists: Seq<Seq<i128>>, step: int, k: nat, t: int)
    requires
        k <= lists.len(),
        step > 0,
        forall|j: int| 0 <= j < k ==> (#[trigger] lists[j]).len() > 0 && even(lists[j], step),
    ensures
        is_total(lists, k, low_total(lists, k) + t * step) <==> 0 <= t <= step_total(lists, k),
    decreases k,
{
    let s = low_total(lists, k) + t * step;
    if k == 0 {
        if s == 0 {
            assert(t == 0) by (nonlinear_arith)
                requires
                    t * step == 0,
                    step > 0,
            ;
        }
    } else {
        let list = lists[k - 1];
        assert(list.len() > 0 && even(list, step));
        let low = low_total(lists, (k - 1) as nat);
        if is_total(lists, k, s) {
            let i = choose|i: int| 0 <= i < list.len() && is_total(lists, (k - 1) as nat, s - #[trigger] list[i]);
            assert(list[i] == list[0] + i * step);
            assert(low + (t - i) * step == s - list[i]) by (nonlinear_arith)
                requires
                    s == low + list[0] + t * step,
                    list[i] == list[0] + i * step,
            ;
            lemma_even_total(lists, step, (k - 1) as nat, t - i);
        }
        if 0 <= t <= step_total(lists, k) {
            let i = if t < list.len() {
                t
            } else {
                list.len() - 1
            };
            assert(list[i] == list[0] + i * step);
            assert(low + (t - i) * step == s - list[i]) by (nonlinear_arith)
                requires
                    s == low + list[0] + t * step,
                    list[i] == list[0] + i * step,
            ;
            lemma_even_total(lists, step, (k - 1) as nat, t - i);
            assert(is_total(lists, (k - 1) as nat, s - list[i]));
        }
    }
}

/// Sums of numbers that go up by the same steps differ from the least by whole steps.
proof fn lemma_total_even(lists: Seq<Seq<i128>>, step: int, k: nat, s: int) -> (t: int)
    requires
        k <= lists.len(),
        step > 0,
        forall|j: int| 0 <= j < k ==> (#[trigger] lists[j]).len() > 0 && even(lists[j], step),
        is_total(lists, k, s),
    ensures
        s == low_total(lists, k) + t * step,
    decreases k,
{
    if k == 0 {
        assert(0 * step == 0) by (nonlinear_arith);
        0
    } else {
        let list = lists[k - 1];
        let i = choose|i: int| 0 <= i < list.len() && is_total(lists, (k - 1) as nat, s - #[trigger] list[i]);
        assert(even(list, step));
        let t = lemma_total_even(lists, step, (k - 1) as nat, s - list[i]);
        let low = low_total(lists, (k - 1) as nat);
        assert(s == low + list[0] + (t + i) * step) by (nonlinear_arith)
            requires
                s - list[i] == low + t * step,
                list[i] == list[0] + i * step,
        ;
        t + i
    }
}

/// The coordinates of vectors, each once, in ascending order.
fn axis_values(list: &Vec<(i128, i128)>, upright: bool) -> (values: Vec<i128>)
    requires
        list@.len() > 0,
    ensures
        are_coordinates(values@, list@, upright),
        forall|i: int, j: int| #![trigger values@[i], values@[j]] 0 <= i < j < values@.len() ==> values@[i] < values@[j],
{
    let mut values: Vec<i128> = Vec::new();
    let mut k: usize = 0;
    while k < list.len()
        invariant
            k <= list@.len(),
            forall|i: int, j: int| #![trigger values@[i], values@[j]]
                0 <= i < j < values@.len() ==> values@[i] < values@[j],
            forall|i: int| 0 <= i < values@.len() ==> has_coordinate(list@, #[trigger] values@[i] as int, upright),
            forall|i: int| 0 <= i < k ==> values@.contains(along64(#[trigger] list@[i], upright)),
            k > 0 ==> values@.len() > 0,
        decreases list.len() - k,
    {
        let value: i128 = if upright {
            list[k].1
        } else {
            list[k].0
        };
        assert(along(vector(list@[k as int]), upright) == value);
        let ghost before = values@;
        let mut at: usize = 0;
        while at < values.len() && values[at] < value
            invariant
                at <= values@.len(),
                values@ == before,
                forall|i: int| 0 <= i < at ==> #[trigger] values@[i] < value,
            decreases values.len() - at,
        {
            at += 1;
        }
        if at < values.len() && values[at] == value {
            assert(values@[at as int] == value);
        } else {
            values.insert(at, value);
            proof {
                let after = values@;
                assert(after == before.insert(at as int, value));
                assert(after[at as int] == value);
                assert forall|i: int, j: int| #![trigger after[i], after[j]] 0 <= i < j < after.len() implies after[i]
                    < after[j] by {
                    let a = if i < at { before[i] } else { before[i - 1] };
                    let b = if j < at { before[j] } else { before[j - 1] };
                    let here = before[at as int];
                }
                assert forall|i: int| 0 <= i < k implies after.contains(along64(#[trigger] list@[i], upright)) by {
                    let v = along64(list@[i], upright);
                    assert(before.contains(v));
                    let j = before.index_of(v);
                    if j < at {
                        assert(after[j] == v);
                    } else {
                        assert(after[j + 1] == v);
                    }
                }
                assert forall|i: int| 0 <= i < after.len() implies has_coordinate(
                    list@,
                    #[trigger] after[i] as int,
                    upright,
                ) by {
                    if i < at {
                        assert(after[i] == before[i]);
                    } else if i > at {
                        assert(after[i] == before[i - 1]);
                    }
                }
            }
        }
        k += 1;
    }
    values
}

/// The step by which numbers go up, if all steps are equal: zero for a single number.
fn even_step(values: &Vec<i128>) -> (step: Option<i128>)
    requires
        values@.len() > 0,
        forall|i: int, j: int| #![trigger values@[i], values@[j]] 0 <= i < j < values@.len() ==> values@[i] < values@[j],
        forall|i: int| 0 <= i < values@.len() ==> -0x7f_ffff_ffff_ffff_ffff_ffff_ffff <= #[trigger] values@[i] <= 0x7f_ffff_ffff_ffff_ffff_ffff_ffff,
    ensures
        match step {
            Some(0) => values@.len() == 1,
            Some(step) => values@.len() > 1 && step > 0 && even(values@, step as int),
            None => values@.len() > 1,
        },
{
    if values.len() == 1 {
        return Some(0);
    }
    assert(values@[0] < values@[1]);
    let step: i128 = values[1] - values[0];
    let mut k: usize = 1;
    assert(0 * step == 0 && 1 * step == step);
    while k < values.len()
        invariant
            1 <= k <= values@.len(),
            step > 0,
            forall|i: int| 0 <= i < values@.len() ==> -0x7f_ffff_ffff_ffff_ffff_ffff_ffff <= #[trigger] values@[i] <= 0x7f_ffff_ffff_ffff_ffff_ffff_ffff,
            forall|i: int| 0 <= i < k ==> #[trigger] values@[i] == values@[0] + i * step,
        decreases values.len() - k,
    {
        assert(-0x7f_ffff_ffff_ffff_ffff_ffff_ffff <= values@[k as int] <= 0x7f_ffff_ffff_ffff_ffff_ffff_ffff);
        assert(-0x7f_ffff_ffff_ffff_ffff_ffff_ffff <= values@[k - 1] <= 0x7f_ffff_ffff_ffff_ffff_ffff_ffff);
        if values[k] - values[k - 1] != step {
            return None;
        }
        assert((k - 1) * step + step == k * step) by (nonlinear_arith);
        k += 1;
    }
    Some(step)
}

/// The sum of the greatest numbers.
spec fn high_total(lists: Seq<Seq<i128>>, k: nat) -> int
    decreases k,
{
    if k == 0 {
        0
    } else {
        high_total(lists, (k - 1) as nat) + lists[k - 1].last()
    }
}

proof fn lemma_high(lists: Seq<Seq<i128>>, step: int, k: nat)
    requires
        k <= lists.len(),
        forall|j: int| 0 <= j < k ==> (#[trigger] lists[j]).len() > 0 && even(lists[j], step),
    ensures
        high_total(lists, k) == low_total(lists, k) + step_total(lists, k) * step,
    decreases k,
{
    if k == 0 {
        assert(0 * step == 0) by (nonlinear_arith);
    } else {
        lemma_high(lists, step, (k - 1) as nat);
        let list = lists[k - 1];
        assert(even(list, step));
        let n = list.len() - 1;
        assert(list[n] == list[0] + n * step);
        let t = step_total(lists, (k - 1) as nat);
        assert((t + n) * step == t * step + n * step) by (nonlinear_arith);
    }
}

/// Coordinates of short vectors are small.
proof fn lemma_coordinates_small(values: Seq<i128>, list: Seq<(i128, i128)>, upright: bool, limit: int)
    requires
        are_coordinates(values, list, upright),
        short(list, limit),
    ensures
        forall|i: int| 0 <= i < values.len() ==> -limit <= #[trigger] values[i] <= limit,
{
    assert forall|i: int| 0 <= i < values.len() implies -limit <= #[trigger] values[i] <= limit by {
        assert(has_coordinate(list, values[i] as int, upright));
        let j = choose|j: int| 0 <= j < list.len() && along(vector(#[trigger] list[j]), upright) == values[i];
        assert(-limit <= list[j].0 <= limit);
    }
}

/// The numbers of lists.
spec fn value_views(lists: Seq<Vec<i128>>) -> Seq<Seq<i128>> {
    Seq::new(lists.len(), |k: int| lists[k]@)
}

/// The vectors on a line: one coordinate is fixed, the other goes up by equal steps.
fn line(low: i128, high: i128, step: i128, fixed: i128, upright: bool) -> (list: Vec<(i128, i128)>)
    requires
        -0x7f_ffff_ffff_ffff_ffff_ffff_ffff <= low <= high <= 0x7f_ffff_ffff_ffff_ffff_ffff_ffff,
        0 < step <= 0xff_ffff_ffff_ffff_ffff_ffff_ffff,
    ensures
        forall|d: Vector| #[trigger]
            holds(list@, d) <==> beside(d, upright) == fixed && exists|t: int|
                0 <= t && low + t * step <= high && #[trigger] on_line(along(d, upright), low as int, t, step as int),
        list@.no_duplicates(),
{
    let mut list: Vec<(i128, i128)> = Vec::new();
    let mut current: i128 = low;
    let ghost mut n: int = 0;
    assert(0 * step == 0) by (nonlinear_arith);
    while current <= high
        invariant
            -0x7f_ffff_ffff_ffff_ffff_ffff_ffff <= low <= high <= 0x7f_ffff_ffff_ffff_ffff_ffff_ffff,
            low <= current <= high + step,
            0 < step <= 0xff_ffff_ffff_ffff_ffff_ffff_ffff,
            0 <= n,
            current == low + n * step,
            list@.no_duplicates(),
            forall|i: int| 0 <= i < list@.len() ==> along(vector(#[trigger] list@[i]), upright) < current,
            forall|d: Vector| #[trigger]
                holds(list@, d) <==> beside(d, upright) == fixed && exists|t: int|
                    0 <= t < n && #[trigger] on_line(along(d, upright), low as int, t, step as int),
        decreases high + step - current,
    {
        let d: (i128, i128) = if upright {
            (fixed, current)
        } else {
            (current, fixed)
        };
        let ghost before = list@;
        proof {
            lemma_holds_push(before, d);
            lemma_new_vector(before, d);
        }
        list.push(d);
        proof {
            assert forall|i: int| 0 <= i < list@.len() implies along(vector(#[trigger] list@[i]), upright) < current
                + step by {
                if i < before.len() {
                    assert(list@[i] == before[i]);
                }
            }
            assert forall|v: Vector| #[trigger]
                holds(list@, v) <==> beside(v, upright) == fixed && exists|t: int|
                    0 <= t < n + 1 && #[trigger] on_line(along(v, upright), low as int, t, step as int) by {
                if v == vector(d) {
                    assert(on_line(along(v, upright), low as int, n, step as int));
                }
                if exists|t: int| 0 <= t < n + 1 && #[trigger] on_line(along(v, upright), low as int, t, step as int) {
                    let t = choose|t: int|
                        0 <= t < n + 1 && #[trigger] on_line(along(v, upright), low as int, t, step as int);
                    if t == n && beside(v, upright) == fixed {
                        assert(v == vector(d));
                    }
                }
                assert(holds(before, v) <==> beside(v, upright) == fixed && exists|t: int|
                    0 <= t < n && #[trigger] on_line(along(v, upright), low as int, t, step as int));
            }
            assert((n + 1) * step == n * step + step) by (nonlinear_arith);
            n = n + 1;
        }
        current = current + step;
    }
    proof {
        assert forall|d: Vector| #[trigger]
            holds(list@, d) <==> beside(d, upright) == fixed && exists|t: int|
                0 <= t && low + t * step <= high && #[trigger] on_line(
                    along(d, upright),
                    low as int,
                    t,
                    step as int,
                ) by {
            if exists|t: int|
                0 <= t && low + t * step <= high && #[trigger] on_line(
                    along(d, upright),
                    low as int,
                    t,
                    step as int,
                ) {
                let t = choose|t: int|
                    0 <= t && low + t * step <= high && #[trigger] on_line(
                        along(d, upright),
                        low as int,
                        t,
                        step as int,
                    );
                assert(t < n) by (nonlinear_arith)
                    requires
                        low + t * step <= high,
                        low + n * step > high,
                        step > 0,
                ;
            }
            if exists|t: int| 0 <= t < n && #[trigger] on_line(along(d, upright), low as int, t, step as int) {
                let t = choose|t: int|
                    0 <= t < n && #[trigger] on_line(along(d, upright), low as int, t, step as int);
                assert(low + t * step <= high) by (nonlinear_arith)
                    requires
                        low + n * step <= high + step,
                        t + 1 <= n,
                        step > 0,
                ;
            }
        }
    }
    list
}

/// The number lies a number of steps above another.
pub open spec fn on_line(value: int, low: int, t: int, step: int) -> bool {
    value == low + t * step
}

/// All vectors of the lists are short.
pub open spec fn all_short(lists: Seq<Seq<(i128, i128)>>, limit: int) -> bool {
    forall|k: int| 0 <= k < lists.len() ==> short(#[trigger] lists[k], limit)
}

/// None of the first `n` lists is empty, and the vectors of each of them agree in one
/// coordinate.
pub open spec fn on_axis(lists: Seq<Seq<(i128, i128)>>, n: int, upright: bool) -> bool {
    forall|k: int|
        0 <= k < n ==> (#[trigger] lists[k]).len() > 0 && keeps(
            lists[k],
            beside(vector(lists[k][0]), upright),
            upright,
        )
}

/// The sums, each once, where all vectors of each list agree in one coordinate.
fn aggregate_axis_corridor_candidates(lists: &Vec<Vec<(i128, i128)>>, limit: i128, upright: bool) -> (sums: Option<
    Vec<(i128, i128)>,
>)
    requires
        all_short(list_views(lists@), limit as int),
        0 <= limit,
        lists@.len() * limit <= 0x7f_ffff_ffff_ffff_ffff_ffff_ffff,
    ensures
        sums is None <==> !on_axis(list_views(lists@), lists@.len() as int, upright),
        sums matches Some(sums) ==> sums@.no_duplicates() && forall|d: Vector| #[trigger]
            holds(sums@, d) <==> is_sum(list_views(lists@), lists@.len(), d),
{
    let ghost views = list_views(lists@);
    let n: usize = lists.len();
    let mut fixed_total: i128 = 0;
    let ghost mut fixed: Seq<int> = Seq::empty();
    let mut values: Vec<Vec<i128>> = Vec::new();
    let mut low: i128 = 0;
    let mut high: i128 = 0;
    let mut common: i128 = 0;
    let mut regular: bool = true;
    let mut k: usize = 0;
    assert(0 * limit == 0) by (nonlinear_arith);
    while k < lists.len()
        invariant
            n == lists@.len(),
            k <= n,
            views == list_views(lists@),
            all_short(views, limit as int),
            on_axis(views, k as int, upright),
            0 <= limit,
            n * limit <= 0x7f_ffff_ffff_ffff_ffff_ffff_ffff,
            values@.len() == k,
            fixed.len() == k,
            forall|j: int| 0 <= j < k ==> are_coordinates(#[trigger] value_views(values@)[j], views[j], upright),
            forall|j: int|
                0 <= j < k ==> (#[trigger] value_views(values@)[j]).len() > 0 && -limit <= value_views(values@)[j][0]
                    <= limit,
            forall|j: int| 0 <= j < k ==> keeps(views[j], #[trigger] fixed[j], upright),
            fixed_total == seq_total(fixed, k as nat),
            -(k * limit) <= fixed_total <= k * limit,
            low == low_total(value_views(values@), k as nat),
            -(k * limit) <= low <= k * limit,
            high == high_total(value_views(values@), k as nat),
            -(k * limit) <= high <= k * limit,
            0 <= common <= 0xff_ffff_ffff_ffff_ffff_ffff_ffff,
            regular && common == 0 ==> forall|j: int| 0 <= j < k ==> (#[trigger] value_views(values@)[j]).len() == 1,
            regular && common > 0 ==> forall|j: int|
                0 <= j < k ==> even(#[trigger] value_views(values@)[j], common as int),
        decreases lists.len() - k,
    {
        let list: &Vec<(i128, i128)> = &lists[k];
        assert(views[k as int] == list@);
        assert(short(list@, limit as int));
        if list.len() == 0 {
            return None;
        }
        let first: i128 = if upright {
            list[0].0
        } else {
            list[0].1
        };
        let mut i: usize = 0;
        while i < list.len()
            invariant
                i <= list@.len(),
                k < views.len(),
                views == list_views(lists@),
                views[k as int] == list@,
                list@.len() > 0,
                first == beside(vector(list@[0]), upright),
                forall|j: int| 0 <= j < i ==> beside(vector(#[trigger] list@[j]), upright) == first,
            decreases list.len() - i,
        {
            let value: i128 = if upright {
                list[i].0
            } else {
                list[i].1
            };
            if value != first {
                proof {
                    assert(beside(vector(list@[i as int]), upright) == value);
                    assert(beside(vector(views[k as int][0]), upright) == first);
                    assert(!keeps(views[k as int], beside(vector(views[k as int][0]), upright), upright));
                }
                return None;
            }
            assert(beside(vector(list@[i as int]), upright) == first);
            i += 1;
        }
        let numbers: Vec<i128> = axis_values(list, upright);
        let ghost before = value_views(values@);
        let ghost fixed_before = fixed;
        proof {
            lemma_coordinates_small(numbers@, list@, upright, limit as int);
            assert(-limit <= list@[0].0 <= limit);
            assert((k + 1) * limit == k * limit + limit) by (nonlinear_arith);
            assert((k + 1) * limit <= n * limit) by (nonlinear_arith)
                requires
                    k + 1 <= n,
                    0 <= limit,
            ;
            assert(limit <= n * limit) by (nonlinear_arith)
                requires
                    1 <= n,
                    0 <= limit,
            ;
            assert(-limit <= numbers@[0] <= limit);
            assert(-limit <= numbers@[numbers@.len() - 1] <= limit);
            fixed = fixed.push(first as int);
            lemma_total_push(fixed_before, first as int, k as nat);
        }
        fixed_total = fixed_total + first;
        low = low + numbers[0];
        high = high + numbers[numbers.len() - 1];
        let ghost model = numbers@;
        match even_step(&numbers) {
            Some(step) => {
                if step > 0 && regular {
                    if common == 0 {
                        common = step;
                        proof {
                            assert(numbers@[1] == numbers@[0] + 1 * step);
                            assert(-limit <= numbers@[1] <= limit);
                            assert forall|j: int| 0 <= j < k implies even(#[trigger] before[j], step as int) by {
                                assert(before[j].len() == 1);
                                assert(0 * step == 0) by (nonlinear_arith);
                            }
                        }
                    } else if common != step {
                        regular = false;
                    }
                }
                proof {
                    if step == 0 {
                        assert(0 * common == 0) by (nonlinear_arith);
                        assert(even(model, common as int));
                    }
                }
            },
            None => {
                regular = false;
            },
        }
        values.push(numbers);
        proof {
            let after = value_views(values@);
            assert(after =~= before.push(model));
            lemma_low_push(before, model, k as nat);
            assert forall|j: int| 0 <= j <= k implies keeps(views[j], #[trigger] fixed[j], upright) by {
                if j < k {
                    assert(fixed[j] == fixed_before[j]);
                }
            }
            assert forall|j: int| 0 <= j <= k implies are_coordinates(#[trigger] after[j], views[j], upright) by {
                if j < k {
                    assert(after[j] == before[j]);
                }
            }
            assert forall|j: int| 0 <= j <= k implies (#[trigger] after[j]).len() > 0 && -limit <= after[j][0]
                <= limit by {
                if j < k {
                    assert(after[j] == before[j]);
                }
            }
            if regular && common == 0 {
                assert forall|j: int| 0 <= j <= k implies (#[trigger] after[j]).len() == 1 by {
                    if j < k {
                        assert(after[j] == before[j]);
                    }
                }
            }
            if regular && common > 0 {
                assert forall|j: int| 0 <= j <= k implies even(#[trigger] after[j], common as int) by {
                    if j < k {
                        assert(after[j] == before[j]);
                    }
                }
            }
        }
        k += 1;
    }
    assert(proper(views, limit as int));
    if !regular {
        return Some(sum_lists(lists, limit));
    }
    let step: i128 = if common == 0 {
        1
    } else {
        common
    };
    let ghost model = value_views(values@);
    proof {
        assert forall|j: int| 0 <= j < k implies (#[trigger] model[j]).len() > 0 && even(model[j], step as int) by {
            if common == 0 {
                assert(model[j].len() == 1);
                assert(0 * step == 0) by (nonlinear_arith);
            }
        }
        lemma_high(model, step as int, k as nat);
        assert(low <= high) by (nonlinear_arith)
            requires
                high == low + step_total(model, k as nat) * step,
                step > 0,
        ;
    }
    let sums: Vec<(i128, i128)> = line(low, high, step, fixed_total, upright);
    proof {
        assert forall|d: Vector| #[trigger] holds(sums@, d) <==> is_sum(views, n as nat, d) by {
            lemma_axis_sum(views, model, fixed, upright, n as nat, d);
            let s = along(d, upright);
            if holds(sums@, d) {
                let t = choose|t: int|
                    0 <= t && low + t * step <= high && #[trigger] on_line(s, low as int, t, step as int);
                assert(t <= step_total(model, n as nat)) by (nonlinear_arith)
                    requires
                        low + t * step <= high,
                        high == low + step_total(model, n as nat) * step,
                        step > 0,
                ;
                lemma_even_total(model, step as int, n as nat, t);
            }
            if is_sum(views, n as nat, d) {
                let t = lemma_total_even(model, step as int, n as nat, s);
                lemma_even_total(model, step as int, n as nat, t);
                assert(low + t * step <= high) by (nonlinear_arith)
                    requires
                        t <= step_total(model, n as nat),
                        high == low + step_total(model, n as nat) * step,
                        step > 0,
                ;
                assert(on_line(s, low as int, t, step as int));
            }
        }
    }
    Some(sums)
}

proof fn lemma_total_push(numbers: Seq<int>, more: int, k: nat)
    requires
        k == numbers.len(),
    ensures
        seq_total(numbers.push(more), (k + 1) as nat) == seq_total(numbers, k) + more,
{
    lemma_total_prefix(numbers.push(more), numbers, k);
}

proof fn lemma_total_prefix(a: Seq<int>, b: Seq<int>, k: nat)
    requires
        k <= a.len(),
        k <= b.len(),
        forall|j: int| 0 <= j < k ==> a[j] == b[j],
    ensures
        seq_total(a, k) == seq_total(b, k),
    decreases k,
{
    if k > 0 {
        lemma_total_prefix(a, b, (k - 1) as nat);
        assert(a[k - 1] == b[k - 1]);
    }
}

proof fn lemma_low_push(lists: Seq<Seq<i128>>, more: Seq<i128>, k: nat)
    requires
        k == lists.len(),
    ensures
        low_total(lists.push(more), (k + 1) as nat) == low_total(lists, k) + more[0],
        high_total(lists.push(more), (k + 1) as nat) == high_total(lists, k) + more.last(),
{
    lemma_low_prefix(lists.push(more), lists, k);
}

proof fn lemma_low_prefix(a: Seq<Seq<i128>>, b: Seq<Seq<i128>>, k: nat)
    requires
        k <= a.len(),
        k <= b.len(),
        forall|j: int| 0 <= j < k ==> a[j] == b[j],
    ensures
        low_total(a, k) == low_total(b, k),
        high_total(a, k) == high_total(b, k),
    decreases k,
{
    if k > 0 {
        lemma_low_prefix(a, b, (k - 1) as nat);
        assert(a[k - 1] == b[k - 1]);
    }
}

/// The number without its sign.
pub open spec fn magnitude(n: int) -> int {
    if n < 0 {
        -n
    } else {
        n
    }
}

/// The distance of two vectors, in steps along the axes.
pub open spec fn distance(a: Vector, b: Vector) -> int {
    magnitude(a.0 - b.0) + magnitude(a.1 - b.1)
}

/// The distance of two vectors, in steps along the axes.
pub fn manhattan_delta_distance(a: (i128, i128), b: (i128, i128)) -> (steps: i128)
    requires
        -0x200_0000_0000_0000_0000_0000_0000 <= a.0 - b.0 <= 0x200_0000_0000_0000_0000_0000_0000,
        -0x200_0000_0000_0000_0000_0000_0000 <= a.1 - b.1 <= 0x200_0000_0000_0000_0000_0000_0000,
    ensures
        steps == distance(vector(a), vector(b)),
{
    let dx: i128 = a.0 - b.0;
    let dy: i128 = a.1 - b.1;
    let wide: i128 = if dx < 0 {
        -dx
    } else {
        dx
    };
    let high: i128 = if dy < 0 {
        -dy
    } else {
        dy
    };
    wide + high
}

/// A vector lies nearer to another than a second one, or as near and is less.
pub open spec fn is_nearer(a: (i128, i128), b: (i128, i128), centre: Vector) -> bool {
    let near = distance(vector(a), centre);
    let far = distance(vector(b), centre);
    near < far || (near == far && (a.0 < b.0 || (a.0 == b.0 && a.1 < b.1)))
}

/// The vectors stand in the order of their distance from another, and those at the same distance
/// in ascending order.
pub open spec fn nearest_first(list: Seq<(i128, i128)>, centre: Vector) -> bool {
    forall|i: int, j: int| #![trigger list[i], list[j]]
        0 <= i < j < list.len() ==> !is_nearer(list[j], list[i], centre)
}

/// Whether a vector lies nearer than one of a list.
fn goes_before(list: &Vec<(i128, i128)>, i: usize, centre: (i128, i128), d: (i128, i128)) -> (result: bool)
    requires
        short(list@, 0x7f_ffff_ffff_ffff_ffff_ffff_ffff),
        i < list@.len(),
        -0x7f_ffff_ffff_ffff_ffff_ffff_ffff <= centre.0 <= 0x7f_ffff_ffff_ffff_ffff_ffff_ffff,
        -0x7f_ffff_ffff_ffff_ffff_ffff_ffff <= centre.1 <= 0x7f_ffff_ffff_ffff_ffff_ffff_ffff,
        -0x7f_ffff_ffff_ffff_ffff_ffff_ffff <= d.0 <= 0x7f_ffff_ffff_ffff_ffff_ffff_ffff,
        -0x7f_ffff_ffff_ffff_ffff_ffff_ffff <= d.1 <= 0x7f_ffff_ffff_ffff_ffff_ffff_ffff,
    ensures
        result == is_nearer(d, list@[i as int], vector(centre)),
{
    assert(-0x7f_ffff_ffff_ffff_ffff_ffff_ffff <= list@[i as int].0 <= 0x7f_ffff_ffff_ffff_ffff_ffff_ffff);
    let other: (i128, i128) = list[i];
    let near: i128 = manhattan_delta_distance(d, centre);
    let far: i128 = manhattan_delta_distance(other, centre);
    near < far || (near == far && (d.0 < other.0 || (d.0 == other.0 && d.1 < other.1)))
}

/// The vectors in the order of their distance from another. Vectors at the same distance
/// stand in ascending order.
pub(crate) fn sort_corridor_candidates(list: Vec<(i128, i128)>, centre: (i128, i128)) -> (sorted: Vec<(i128, i128)>)
    requires
        short(list@, 0x7f_ffff_ffff_ffff_ffff_ffff_ffff),
        -0x7f_ffff_ffff_ffff_ffff_ffff_ffff <= centre.0 <= 0x7f_ffff_ffff_ffff_ffff_ffff_ffff,
        -0x7f_ffff_ffff_ffff_ffff_ffff_ffff <= centre.1 <= 0x7f_ffff_ffff_ffff_ffff_ffff_ffff,
    ensures
        sorted@.len() == list@.len(),
        list@.no_duplicates() ==> sorted@.no_duplicates(),
        forall|d: Vector| #[trigger] holds(sorted@, d) <==> holds(list@, d),
        nearest_first(sorted@, vector(centre)),
        short(sorted@, 0x7f_ffff_ffff_ffff_ffff_ffff_ffff),
{
    let ghost middle = vector(centre);
    let mut sorted: Vec<(i128, i128)> = Vec::new();
    let mut k: usize = 0;
    while k < list.len()
        invariant
            k <= list@.len(),
            middle == vector(centre),
            short(list@, 0x7f_ffff_ffff_ffff_ffff_ffff_ffff),
            -0x7f_ffff_ffff_ffff_ffff_ffff_ffff <= centre.0 <= 0x7f_ffff_ffff_ffff_ffff_ffff_ffff,
            -0x7f_ffff_ffff_ffff_ffff_ffff_ffff <= centre.1 <= 0x7f_ffff_ffff_ffff_ffff_ffff_ffff,
            sorted@.len() == k,
            short(sorted@, 0x7f_ffff_ffff_ffff_ffff_ffff_ffff),
            list@.no_duplicates() ==> sorted@.no_duplicates(),
            nearest_first(sorted@, middle),
            forall|d: Vector| #[trigger] holds(sorted@, d) <==> holds(list@.take(k as int), d),
        decreases list.len() - k,
    {
        let d: (i128, i128) = list[k];
        assert(-0x7f_ffff_ffff_ffff_ffff_ffff_ffff <= list@[k as int].0 <= 0x7f_ffff_ffff_ffff_ffff_ffff_ffff);
        let ghost before = sorted@;
        let mut at: usize = sorted.len();
        while at > 0 && goes_before(&sorted, at - 1, centre, d)
            invariant
                at <= sorted@.len(),
                -0x7f_ffff_ffff_ffff_ffff_ffff_ffff <= d.0 <= 0x7f_ffff_ffff_ffff_ffff_ffff_ffff,
                -0x7f_ffff_ffff_ffff_ffff_ffff_ffff <= d.1 <= 0x7f_ffff_ffff_ffff_ffff_ffff_ffff,
                sorted@ == before,
                short(sorted@, 0x7f_ffff_ffff_ffff_ffff_ffff_ffff),
                -0x7f_ffff_ffff_ffff_ffff_ffff_ffff <= centre.0 <= 0x7f_ffff_ffff_ffff_ffff_ffff_ffff,
                -0x7f_ffff_ffff_ffff_ffff_ffff_ffff <= centre.1 <= 0x7f_ffff_ffff_ffff_ffff_ffff_ffff,
                middle == vector(centre),
                forall|i: int| at <= i < sorted@.len() ==> is_nearer(d, #[trigger] sorted@[i], middle),
            decreases at,
        {
            at -= 1;
        }
        sorted.insert(at, d);
        proof {
            let after = sorted@;
            assert(after == before.insert(at as int, d));
            if list@.no_duplicates() {
                assert(!holds(before, vector(d))) by {
                    if holds(before, vector(d)) {
                        let earlier = list@.take(k as int);
                        assert(holds(earlier, vector(d)));
                        let i = choose|i: int| 0 <= i < earlier.len() && vector(#[trigger] earlier[i]) == vector(d);
                        assert(list@[i] == list@[k as int]);
                    }
                }
                assert forall|i: int, j: int| 0 <= i < after.len() && 0 <= j < after.len() && i != j implies after[i]
                    != after[j] by {
                    let a = if i < at { i } else { i - 1 };
                    let b = if j < at { j } else { j - 1 };
                    if i == at {
                        assert(vector(before[b]) != vector(d));
                    } else if j == at {
                        assert(vector(before[a]) != vector(d));
                    } else {
                        assert(before[a] != before[b]);
                    }
                }
            }
            assert forall|i: int| 0 <= i < after.len() implies -0x7f_ffff_ffff_ffff_ffff_ffff_ffff <= (#[trigger] after[i]).0 <= 0x7f_ffff_ffff_ffff_ffff_ffff_ffff
                && -0x7f_ffff_ffff_ffff_ffff_ffff_ffff <= after[i].1 <= 0x7f_ffff_ffff_ffff_ffff_ffff_ffff by {
                if i < at {
                    assert(after[i] == before[i]);
                } else if i > at {
                    assert(after[i] == before[i - 1]);
                }
            }
            assert forall|i: int, j: int| #![trigger after[i], after[j]] 0 <= i < j < after.len() implies !is_nearer(
                after[j],
                after[i],
                middle,
            ) by {
                let a = if i < at { before[i] } else { before[i - 1] };
                let b = if j < at { before[j] } else { before[j - 1] };
                if j == at {
                    let last = before[at - 1];
                    assert(!is_nearer(d, last, middle));
                    assert(i < at - 1 ==> !is_nearer(before[at - 1], before[i], middle));
                } else if i == at {
                    assert(is_nearer(d, before[j - 1], middle));
                }
            }
            let more = list@.take(k + 1);
            assert(more =~= list@.take(k as int).push(d));
            lemma_holds_push(list@.take(k as int), d);
            lemma_holds_insert(before, at as int, d);
        }
        k += 1;
    }
    assert(list@.take(k as int) =~= list@);
    sorted
}

pub proof fn lemma_holds_insert(list: Seq<(i128, i128)>, at: int, d: (i128, i128))
    requires
        0 <= at <= list.len(),
    ensures
        forall|v: Vector| #[trigger] holds(list.insert(at, d), v) <==> holds(list, v) || v == vector(d),
{
    let more = list.insert(at, d);
    assert forall|v: Vector| #[trigger] holds(more, v) <==> holds(list, v) || v == vector(d) by {
        if holds(list, v) {
            let i = choose|i: int| 0 <= i < list.len() && vector(#[trigger] list[i]) == v;
            if i < at {
                assert(more[i] == list[i]);
            } else {
                assert(more[i + 1] == list[i]);
            }
        }
        if v == vector(d) {
            assert(more[at] == d);
        }
        if holds(more, v) {
            let i = choose|i: int| 0 <= i < more.len() && vector(#[trigger] more[i]) == v;
            if i < at {
                assert(list[i] == more[i]);
            } else if i > at {
                assert(list[i - 1] == more[i]);
            }
        }
    }
}

/// All sums of vectors, one of each list, those next to the preferred sum first.
pub(crate) fn aggregate_corridor_candidates(
    lists: &Vec<Vec<(i128, i128)>>,
    limit: i128,
    preferred: (i128, i128),
) -> (sums: Vec<(i128, i128)>)
    requires
        proper(list_views(lists@), limit as int),
        0 <= limit,
        lists@.len() * limit <= 0x7f_ffff_ffff_ffff_ffff_ffff_ffff,
        vector(preferred) == first_sum(list_views(lists@), lists@.len()),
    ensures
        forall|d: Vector| #[trigger] holds(sums@, d) <==> is_sum(list_views(lists@), lists@.len(), d),
        sums@.len() > 0,
        sums@[0] == preferred,
        nearest_first(sums@, vector(preferred)),
        sums@.no_duplicates(),
        short(sums@, lists@.len() * limit),
{
    let ghost views = list_views(lists@);
    let list: Vec<(i128, i128)> = match aggregate_axis_corridor_candidates(lists, limit, false) {
        Some(list) => list,
        None => match aggregate_axis_corridor_candidates(lists, limit, true) {
            Some(list) => list,
            None => sum_lists(lists, limit),
        },
    };
    proof {
        lemma_first_is_sum(views, limit as int, views.len());
        assert forall|i: int| 0 <= i < list@.len() implies -(lists@.len() * limit) <= (#[trigger] list@[i]).0
            <= lists@.len() * limit && -(lists@.len() * limit) <= list@[i].1 <= lists@.len() * limit by {
            assert(holds(list@, vector(list@[i])));
            lemma_sum_short(views, limit as int, views.len(), vector(list@[i]));
        }
        lemma_sum_short(views, limit as int, views.len(), vector(preferred));
    }
    let sums: Vec<(i128, i128)> = sort_corridor_candidates(list, preferred);
    proof {
        assert(holds(sums@, vector(preferred)));
        let i = choose|i: int| 0 <= i < sums@.len() && vector(#[trigger] sums@[i]) == vector(preferred);
        if i > 0 {
            assert(!is_nearer(sums@[i], sums@[0], vector(preferred)));
        }
        assert forall|i: int| 0 <= i < sums@.len() implies -(lists@.len() * limit) <= (#[trigger] sums@[i]).0
            <= lists@.len() * limit && -(lists@.len() * limit) <= sums@[i].1 <= lists@.len() * limit by {
            assert(holds(sums@, vector(sums@[i])));
            lemma_sum_short(views, limit as int, views.len(), vector(sums@[i]));
        }
    }
    sums
}

/// The vector is a sum of vectors, one of each list from `k` on.
pub open spec fn is_rest(lists: Seq<Seq<(i128, i128)>>, k: nat, d: Vector) -> bool
    decreases lists.len() - k,
{
    if k >= lists.len() {
        d == (0int, 0int)
    } else {
        exists|i: int|
            0 <= i < lists[k as int].len() && is_rest(lists, k + 1, minus(d, vector(#[trigger] lists[k as int][i])))
    }
}

/// A sum of the first lists, and one of the others, make a sum of all.
proof fn lemma_rest_sum(lists: Seq<Seq<(i128, i128)>>, k: nat, a: Vector, b: Vector)
    requires
        k <= lists.len(),
        is_sum(lists, k, a),
        is_rest(lists, k, b),
    ensures
        is_sum(lists, lists.len(), plus(a, b)),
    decreases lists.len() - k,
{
    if k < lists.len() {
        let i = choose|i: int|
            0 <= i < lists[k as int].len() && is_rest(lists, k + 1, minus(b, vector(#[trigger] lists[k as int][i])));
        let d = vector(lists[k as int][i]);
        assert(minus(plus(a, d), vector(lists[(k + 1) - 1][i])) == a);
        assert(is_sum(lists, k + 1, plus(a, d)));
        lemma_rest_sum(lists, k + 1, plus(a, d), minus(b, d));
        assert(plus(plus(a, d), minus(b, d)) == plus(a, b));
    } else {
        assert(plus(a, b) == a);
    }
}

/// A sum of all lists is one of the first lists, and one of the others.
proof fn lemma_sum_rest(lists: Seq<Seq<(i128, i128)>>, k: nat, d: Vector, b: Vector)
    requires
        k <= lists.len(),
        is_sum(lists, k, d),
        is_rest(lists, k, b),
    ensures
        is_rest(lists, 0, plus(d, b)),
    decreases k,
{
    if k > 0 {
        let i = choose|i: int|
            0 <= i < lists[k - 1].len() && is_sum(lists, (k - 1) as nat, minus(d, vector(#[trigger] lists[k - 1][i])));
        let e = vector(lists[k - 1][i]);
        assert(minus(plus(e, b), vector(lists[k - 1][i])) == b);
        assert(is_rest(lists, (k - 1) as nat, plus(e, b)));
        lemma_sum_rest(lists, (k - 1) as nat, minus(d, e), plus(e, b));
        assert(plus(minus(d, e), plus(e, b)) == plus(d, b));
    } else {
        assert(plus(d, b) == b);
    }
}

/// Sums from the first list on are sums of all lists.
pub proof fn lemma_rest_is_sum(lists: Seq<Seq<(i128, i128)>>, d: Vector)
    ensures
        is_rest(lists, 0, d) <==> is_sum(lists, lists.len(), d),
{
    if is_rest(lists, 0, d) {
        assert(is_sum(lists, 0, (0int, 0int)));
        lemma_rest_sum(lists, 0, (0int, 0int), d);
        assert(plus((0int, 0int), d) == d);
    }
    if is_sum(lists, lists.len(), d) {
        assert(is_rest(lists, lists.len(), (0int, 0int)));
        lemma_sum_rest(lists, lists.len(), d, (0int, 0int));
        assert(plus(d, (0int, 0int)) == d);
    }
}

/// The sum of the first vectors of the lists from `k` on.
pub open spec fn first_rest(lists: Seq<Seq<(i128, i128)>>, k: nat) -> Vector
    decreases lists.len() - k,
{
    if k >= lists.len() {
        (0int, 0int)
    } else {
        plus(vector(lists[k as int][0]), first_rest(lists, k + 1))
    }
}

pub proof fn lemma_first_rest(lists: Seq<Seq<(i128, i128)>>, limit: int, k: nat)
    requires
        proper(lists, limit),
        k <= lists.len(),
    ensures
        is_rest(lists, k, first_rest(lists, k)),
        plus(first_sum(lists, k), first_rest(lists, k)) == first_sum(lists, lists.len()),
    decreases lists.len() - k,
{
    if k < lists.len() {
        lemma_first_rest(lists, limit, k + 1);
        assert(minus(first_rest(lists, k), vector(lists[k as int][0])) == first_rest(lists, k + 1));
        assert(lists[k as int].len() > 0);
    }
}

proof fn lemma_rest_short(lists: Seq<Seq<(i128, i128)>>, limit: int, k: nat, d: Vector)
    requires
        proper(lists, limit),
        0 <= limit,
        k <= lists.len(),
        is_rest(lists, k, d),
    ensures
        -((lists.len() - k) * limit) <= d.0 <= (lists.len() - k) * limit,
        -((lists.len() - k) * limit) <= d.1 <= (lists.len() - k) * limit,
    decreases lists.len() - k,
{
    let n = lists.len() - k;
    if k < lists.len() {
        let i = choose|i: int|
            0 <= i < lists[k as int].len() && is_rest(lists, k + 1, minus(d, vector(#[trigger] lists[k as int][i])));
        lemma_rest_short(lists, limit, k + 1, minus(d, vector(lists[k as int][i])));
        assert(short(lists[k as int], limit));
        assert(n * limit == (n - 1) * limit + limit) by (nonlinear_arith);
    } else {
        assert(0 * limit == 0) by (nonlinear_arith);
        assert(n == 0);
    }
}

/// No list is empty, and the vectors of each list are no longer than its size.
pub open spec fn sized(lists: Seq<Seq<(i128, i128)>>, sizes: Seq<int>) -> bool {
    &&& sizes.len() == lists.len()
    &&& forall|k: int|
        0 <= k < lists.len() ==> (#[trigger] lists[k]).len() > 0 && 0 <= sizes[k] && short(lists[k], sizes[k])
}

/// A sum of vectors is no longer than the sizes of their lists together.
pub proof fn lemma_sum_sized(lists: Seq<Seq<(i128, i128)>>, sizes: Seq<int>, k: nat, d: Vector)
    requires
        sized(lists, sizes),
        k <= lists.len(),
        is_sum(lists, k, d),
    ensures
        -seq_total(sizes, k) <= d.0 <= seq_total(sizes, k),
        -seq_total(sizes, k) <= d.1 <= seq_total(sizes, k),
    decreases k,
{
    if k > 0 {
        let i = choose|i: int|
            0 <= i < lists[k - 1].len() && is_sum(
                lists,
                (k - 1) as nat,
                minus(d, vector(#[trigger] lists[k - 1][i])),
            );
        lemma_sum_sized(lists, sizes, (k - 1) as nat, minus(d, vector(lists[k - 1][i])));
        assert(short(lists[k - 1], sizes[k - 1]));
    }
}

proof fn lemma_rest_sized(lists: Seq<Seq<(i128, i128)>>, sizes: Seq<int>, k: nat, d: Vector)
    requires
        sized(lists, sizes),
        k <= lists.len(),
        is_rest(lists, k, d),
    ensures
        ({
            let far = seq_total(sizes, lists.len()) - seq_total(sizes, k);
            -far <= d.0 <= far && -far <= d.1 <= far
        }),
    decreases lists.len() - k,
{
    if k < lists.len() {
        let i = choose|i: int|
            0 <= i < lists[k as int].len() && is_rest(lists, k + 1, minus(d, vector(#[trigger] lists[k as int][i])));
        lemma_rest_sized(lists, sizes, k + 1, minus(d, vector(lists[k as int][i])));
        assert(short(lists[k as int], sizes[k as int]));
        assert(seq_total(sizes, k + 1) == seq_total(sizes, k) + sizes[k as int]);
    }
}

pub proof fn lemma_sizes_grow(lists: Seq<Seq<(i128, i128)>>, sizes: Seq<int>, j: nat, k: nat)
    requires
        sized(lists, sizes),
        j <= k <= lists.len(),
    ensures
        0 <= seq_total(sizes, j) <= seq_total(sizes, k),
        forall|i: int| 0 <= i < k ==> #[trigger] sizes[i] <= seq_total(sizes, k),
    decreases k,
{
    if k > 0 {
        assert(lists[k - 1].len() > 0);
        if j < k {
            lemma_sizes_grow(lists, sizes, j, (k - 1) as nat);
        } else {
            lemma_sizes_grow(lists, sizes, (k - 1) as nat, (k - 1) as nat);
        }
    }
}

/// Sizes that are all the same.
pub proof fn lemma_same_sizes(limit: int, n: nat, k: nat)
    requires
        k <= n,
    ensures
        seq_total(Seq::new(n, |i: int| limit), k) == k * limit,
    decreases k,
{
    if k > 0 {
        lemma_same_sizes(limit, n, (k - 1) as nat);
        assert((k - 1) * limit + limit == k * limit) by (nonlinear_arith);
    } else {
        assert(0 * limit == 0) by (nonlinear_arith);
    }
}

/// The vectors chosen for the links of a corridor: one of each list, with a given sum.
pub open spec fn are_parts(lists: Seq<Seq<(i128, i128)>>, parts: Seq<(i128, i128)>, total: Vector) -> bool {
    &&& parts.len() == lists.len()
    &&& forall|k: int| 0 <= k < parts.len() ==> holds(lists[k], vector(#[trigger] parts[k]))
    &&& part_sum(parts, parts.len()) == total
}

/// The sum of the first `k` vectors.
pub open spec fn part_sum(parts: Seq<(i128, i128)>, k: nat) -> Vector
    decreases k,
{
    if k == 0 {
        (0int, 0int)
    } else {
        plus(part_sum(parts, (k - 1) as nat), vector(parts[k - 1]))
    }
}

proof fn lemma_part_prefix(a: Seq<(i128, i128)>, b: Seq<(i128, i128)>, k: nat)
    requires
        k <= a.len(),
        k <= b.len(),
        forall|j: int| 0 <= j < k ==> a[j] == b[j],
    ensures
        part_sum(a, k) == part_sum(b, k),
    decreases k,
{
    if k > 0 {
        lemma_part_prefix(a, b, (k - 1) as nat);
        assert(a[k - 1] == b[k - 1]);
    }
}

/// For each `k`, the sums of vectors of the lists from `k` on.
pub(crate) fn corridor_suffix_sums(lists: &Vec<Vec<(i128, i128)>>, sizes: Ghost<Seq<int>>) -> (suffix: Vec<Vec<(i128, i128)>>)
    requires
        sized(list_views(lists@), sizes@),
        seq_total(sizes@, lists@.len()) <= 0x1f_ffff_ffff_ffff_ffff_ffff_ffff_ffff,
    ensures
        suffix@.len() == lists@.len() + 1,
        forall|k: int, d: Vector|
            0 <= k <= lists@.len() ==> (#[trigger] holds(suffix@[k]@, d) <==> is_rest(
                list_views(lists@),
                k as nat,
                d,
            )),
{
    let ghost views = list_views(lists@);
    let n: usize = lists.len();
    let mut reversed: Vec<Vec<(i128, i128)>> = Vec::new();
    let mut zero: Vec<(i128, i128)> = Vec::new();
    proof {
        lemma_holds_push(Seq::empty(), (0, 0));
    }
    zero.push((0, 0));
    reversed.push(zero);
    let mut k: usize = n;
    while k > 0
        invariant
            k <= n,
            n == lists@.len(),
            views == list_views(lists@),
            sized(views, sizes@),
            seq_total(sizes@, n as nat) <= 0x1f_ffff_ffff_ffff_ffff_ffff_ffff_ffff,
            reversed@.len() == n - k + 1,
            forall|m: int, d: Vector|
                k <= m <= n ==> (#[trigger] holds(reversed@[n - m]@, d) <==> is_rest(views, m as nat, d)),
        decreases k,
    {
        let ghost before = reversed@[n - k]@;
        proof {
            assert forall|d: Vector| #[trigger] holds(before, d) <==> is_rest(views, k as nat, d) by {
                assert(holds(reversed@[n - k]@, d) <==> is_rest(views, k as nat, d));
            }
            assert(views[k - 1] == lists@[k - 1]@);
            lemma_sizes_grow(views, sizes@, k as nat, n as nat);
            assert(sizes@[k - 1] <= seq_total(sizes@, n as nat));
            assert(short(views[k - 1], sizes@[k - 1]));
            lemma_short_more(views[k - 1], sizes@[k - 1], 0x1f_ffff_ffff_ffff_ffff_ffff_ffff_ffff);
            assert forall|i: int| 0 <= i < before.len() implies -0x1f_ffff_ffff_ffff_ffff_ffff_ffff_ffff <= (#[trigger] before[i]).0
                <= 0x1f_ffff_ffff_ffff_ffff_ffff_ffff_ffff && -0x1f_ffff_ffff_ffff_ffff_ffff_ffff_ffff <= before[i].1 <= 0x1f_ffff_ffff_ffff_ffff_ffff_ffff_ffff by {
                assert(holds(before, vector(before[i])));
                lemma_rest_sized(views, sizes@, k as nat, vector(before[i]));
            }
        }
        let next: Vec<(i128, i128)> = extend_sums(&reversed[n - k], &lists[k - 1], 0x1f_ffff_ffff_ffff_ffff_ffff_ffff_ffff, 0x1f_ffff_ffff_ffff_ffff_ffff_ffff_ffff);
        proof {
            assert forall|d: Vector| #[trigger] holds(next@, d) <==> is_rest(views, (k - 1) as nat, d) by {
                lemma_pair_sum(before, views[k - 1], d);
                if is_pair_sum(before, views[k - 1], d) {
                    let b = choose|b: int|
                        0 <= b < views[k - 1].len() && holds(before, minus(d, vector(#[trigger] views[k - 1][b])));
                    assert(is_rest(views, k as nat, minus(d, vector(views[k - 1][b]))));
                }
                if is_rest(views, (k - 1) as nat, d) {
                    let b = choose|b: int|
                        0 <= b < views[k - 1].len() && is_rest(
                            views,
                            k as nat,
                            minus(d, vector(#[trigger] views[k - 1][b])),
                        );
                    assert(holds(before, minus(d, vector(views[k - 1][b]))));
                }
            }
        }
        reversed.push(next);
        k -= 1;
    }
    let mut suffix: Vec<Vec<(i128, i128)>> = Vec::new();
    let count: usize = reversed.len();
    let mut m: usize = 0;
    while m < count
        invariant
            m <= count == n + 1,
            n == lists@.len(),
            views == list_views(lists@),
            reversed@.len() + m == count,
            suffix@.len() == m,
            forall|j: int, d: Vector|
                m <= j <= n ==> (#[trigger] holds(reversed@[n - j]@, d) <==> is_rest(views, j as nat, d)),
            forall|j: int, d: Vector| 0 <= j < m ==> (#[trigger] holds(suffix@[j]@, d) <==> is_rest(views, j as nat, d)),
        decreases count - m,
    {
        let ghost before = reversed@;
        match reversed.pop() {
            Some(list) => {
                assert(list@ == before[n - m]@);
                assert forall|d: Vector| #[trigger] holds(list@, d) <==> is_rest(views, m as nat, d) by {
                    assert(holds(before[n - m]@, d) <==> is_rest(views, m as nat, d));
                }
                suffix.push(list);
            },
            None => {},
        }
        m += 1;
    }
    suffix
}

/// Whether what is left after a vector is one of the sums.
fn leaves(sums: &Vec<(i128, i128)>, remaining: (i128, i128), list: &Vec<(i128, i128)>, i: usize) -> (result: bool)
    requires
        short(list@, 0x7f_ffff_ffff_ffff_ffff_ffff_ffff),
        i < list@.len(),
        -0x7f_ffff_ffff_ffff_ffff_ffff_ffff <= remaining.0 <= 0x7f_ffff_ffff_ffff_ffff_ffff_ffff,
        -0x7f_ffff_ffff_ffff_ffff_ffff_ffff <= remaining.1 <= 0x7f_ffff_ffff_ffff_ffff_ffff_ffff,
    ensures
        result == holds(sums@, minus(vector(remaining), vector(list@[i as int]))),
{
    assert(-0x7f_ffff_ffff_ffff_ffff_ffff_ffff <= list@[i as int].0 <= 0x7f_ffff_ffff_ffff_ffff_ffff_ffff);
    let rest: (i128, i128) = (remaining.0 - list[i].0, remaining.1 - list[i].1);
    assert(vector(rest) == minus(vector(remaining), vector(list@[i as int])));
    has_vector(sums, rest)
}

/// Vectors of the links of a corridor with a given sum: of each link in turn, the first
/// that leaves the links after it a sum.
pub(crate) fn split_corridor(lists: &Vec<Vec<(i128, i128)>>, limit: i128, total: (i128, i128)) -> (parts: Vec<(i128, i128)>)
    requires
        proper(list_views(lists@), limit as int),
        0 <= limit,
        lists@.len() * limit <= 0x7f_ffff_ffff_ffff_ffff_ffff_ffff,
        is_sum(list_views(lists@), lists@.len(), vector(total)),
    ensures
        are_parts(list_views(lists@), parts@, vector(total)),
        vector(total) == first_sum(list_views(lists@), lists@.len()) ==> forall|k: int|
            0 <= k < parts@.len() ==> #[trigger] parts@[k] == lists@[k]@[0],
{
    let ghost views = list_views(lists@);
    let ghost sizes = Seq::new(lists@.len(), |i: int| limit as int);
    proof {
        lemma_same_sizes(limit as int, lists@.len(), lists@.len());
        assert forall|k: int| 0 <= k < views.len() implies (#[trigger] views[k]).len() > 0 && 0 <= sizes[k] && short(
            views[k],
            sizes[k],
        ) by {}
    }
    let suffix: Vec<Vec<(i128, i128)>> = corridor_suffix_sums(lists, Ghost(sizes));
    let mut remaining: (i128, i128) = total;
    let mut parts: Vec<(i128, i128)> = Vec::new();
    let mut k: usize = 0;
    proof {
        lemma_rest_is_sum(views, vector(total));
        lemma_first_rest(views, limit as int, 0);
        assert(plus(first_sum(views, 0), first_rest(views, 0)) == first_rest(views, 0));
    }
    while k < lists.len()
        invariant
            k <= lists@.len(),
            views == list_views(lists@),
            proper(views, limit as int),
            0 <= limit,
            lists@.len() * limit <= 0x7f_ffff_ffff_ffff_ffff_ffff_ffff,
            suffix@.len() == lists@.len() + 1,
            forall|j: int, d: Vector|
                0 <= j <= lists@.len() ==> (#[trigger] holds(suffix@[j]@, d) <==> is_rest(views, j as nat, d)),
            parts@.len() == k,
            forall|j: int| 0 <= j < k ==> holds(views[j], vector(#[trigger] parts@[j])),
            is_rest(views, k as nat, vector(remaining)),
            plus(part_sum(parts@, k as nat), vector(remaining)) == vector(total),
            vector(total) == first_sum(views, views.len()) ==> vector(remaining) == first_rest(views, k as nat)
                && forall|j: int| 0 <= j < k ==> #[trigger] parts@[j] == lists@[j]@[0],
        decreases lists.len() - k,
    {
        let list: &Vec<(i128, i128)> = &lists[k];
        assert(views[k as int] == list@);
        assert(short(list@, limit as int));
        let ghost n = lists@.len() as int;
        proof {
            lemma_rest_short(views, limit as int, k as nat, vector(remaining));
            assert((n - k) * limit <= n * limit) by (nonlinear_arith)
                requires
                    0 <= k < n,
                    0 <= limit,
            ;
            assert(limit <= n * limit) by (nonlinear_arith)
                requires
                    0 < n,
                    0 <= limit,
            ;
            lemma_first_rest(views, limit as int, (k + 1) as nat);
            assert forall|i: int| 0 <= i < list@.len() implies -0x7f_ffff_ffff_ffff_ffff_ffff_ffff <= (#[trigger] list@[i]).0 <= 0x7f_ffff_ffff_ffff_ffff_ffff_ffff
                && -0x7f_ffff_ffff_ffff_ffff_ffff_ffff <= list@[i].1 <= 0x7f_ffff_ffff_ffff_ffff_ffff_ffff by {
                assert(-limit <= list@[i].0 <= limit);
            }
        }
        let mut i: usize = 0;
        let ghost reach = choose|i: int|
            0 <= i < list@.len() && is_rest(
                views,
                (k + 1) as nat,
                minus(vector(remaining), vector(#[trigger] views[k as int][i])),
            );
        let sums: &Vec<(i128, i128)> = &suffix[k + 1];
        assert forall|d: Vector| #[trigger] holds(sums@, d) <==> is_rest(views, (k + 1) as nat, d) by {
            assert(holds(suffix@[k + 1]@, d) <==> is_rest(views, (k + 1) as nat, d));
        }
        while i + 1 < list.len() && !leaves(sums, remaining, list, i)
            invariant
                k < lists@.len(),
                forall|d: Vector| #[trigger] holds(sums@, d) <==> is_rest(views, (k + 1) as nat, d),
                views == list_views(lists@),
                views[k as int] == list@,
                suffix@.len() == lists@.len() + 1,
                short(list@, 0x7f_ffff_ffff_ffff_ffff_ffff_ffff),
                -0x7f_ffff_ffff_ffff_ffff_ffff_ffff <= remaining.0 <= 0x7f_ffff_ffff_ffff_ffff_ffff_ffff,
                -0x7f_ffff_ffff_ffff_ffff_ffff_ffff <= remaining.1 <= 0x7f_ffff_ffff_ffff_ffff_ffff_ffff,
                i < list@.len(),
                i <= reach < list@.len(),
                is_rest(views, (k + 1) as nat, minus(vector(remaining), vector(list@[reach]))),
                forall|j: int|
                    0 <= j < i ==> !is_rest(
                        views,
                        (k + 1) as nat,
                        minus(vector(remaining), vector(#[trigger] list@[j])),
                    ),
            ensures
                i < list@.len(),
                is_rest(views, (k + 1) as nat, minus(vector(remaining), vector(list@[i as int]))),
                forall|j: int|
                    0 <= j < i ==> !is_rest(
                        views,
                        (k + 1) as nat,
                        minus(vector(remaining), vector(#[trigger] list@[j])),
                    ),
            decreases list.len() - i,
        {
            i += 1;
        }
        let chosen: (i128, i128) = list[i];
        assert(-limit <= list@[i as int].0 <= limit);
        let ghost before = parts@;
        proof {
            if vector(total) == first_sum(views, views.len()) {
                assert(minus(vector(remaining), vector(list@[0])) == first_rest(views, (k + 1) as nat));
                assert(i == 0);
            }
            assert(holds(list@, vector(list@[i as int])));
        }
        parts.push(chosen);
        remaining = (remaining.0 - chosen.0, remaining.1 - chosen.1);
        proof {
            lemma_part_prefix(parts@, before, k as nat);
            assert(part_sum(parts@, (k + 1) as nat) == plus(part_sum(before, k as nat), vector(chosen)));
            assert forall|j: int| 0 <= j <= k implies holds(views[j], vector(#[trigger] parts@[j])) by {
                if j < k {
                    assert(parts@[j] == before[j]);
                }
            }
        }
        k += 1;
    }
    parts
}

} // verus!
