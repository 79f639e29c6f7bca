//! Which rows of values are allowed, for a pattern and for patterns that share wires.

use crate::bits;
use crate::composites;
use crate::composites::{CompositeRelation, PartModel, SharedModel};
use crate::gadget_verifier;
use crate::library;
use crate::library::SpecModel;
use crate::phases;
use crate::relations;
use crate::relations::States;
use crate::text;
use vstd::prelude::*;

verus! {

proof fn lemma_digits()
    ensures
        text::decimal(0) == "0"@,
        text::decimal(1) == "1"@,
        "0"@ != "1"@,
{
    reveal_strlit("0");
    reveal_strlit("1");
    assert(text::decimal(0) =~= "0"@ && text::decimal(1) =~= "1"@);
    assert("0"@[0] != "1"@[0]);
}

/// All wires have different names.
pub open spec fn are_distinct(wires: Seq<char>) -> bool {
    forall|i: int, j: int| #![trigger wires[i], wires[j]] 0 <= i < j < wires.len() ==> wires[i] != wires[j]
}

proof fn lemma_item(wires: Seq<char>, values: Seq<u8>, k: nat)
    requires
        k <= wires.len(),
        k <= values.len(),
        are_distinct(wires),
    ensures
        ({
            let states = relations::item_states(wires, values, k);
            &&& forall|i: int|
                0 <= i < k ==> states.contains_key(seq![#[trigger] wires[i]]) && states[seq![wires[i]]] == text::decimal(
                    values[i] as nat,
                )
            &&& forall|key: Seq<char>| #[trigger]
                states.contains_key(key) ==> exists|i: int| 0 <= i < k && key == seq![#[trigger] wires[i]]
        }),
    decreases k,
{
    if k > 0 {
        lemma_item(wires, values, (k - 1) as nat);
        let earlier = relations::item_states(wires, values, (k - 1) as nat);
        let states = relations::item_states(wires, values, k);
        assert forall|i: int| 0 <= i < k implies states.contains_key(seq![#[trigger] wires[i]]) && states[seq![wires[i]]]
            == text::decimal(values[i] as nat) by {
            if i < k - 1 {
                assert(wires[i] != wires[k - 1]);
                assert(seq![wires[i]][0] != seq![wires[k - 1]][0]);
                assert(earlier.contains_key(seq![wires[i]]));
            }
        }
        assert forall|key: Seq<char>| #[trigger] states.contains_key(key) implies exists|i: int|
            0 <= i < k && key == seq![#[trigger] wires[i]] by {
            if key != seq![wires[k - 1]] {
                assert(earlier.contains_key(key));
            } else {
                assert(key == seq![wires[k - 1]]);
            }
        }
    }
}

/// The states that a row of values gives the wires: each wire has the state that is named like its
/// value, and other ports have none.
pub open spec fn names_values(wires: Seq<char>, row: Seq<u8>, states: States) -> bool {
    &&& forall|i: int|
        0 <= i < wires.len() ==> states.contains_key(seq![#[trigger] wires[i]]) && states[seq![wires[i]]] == (if row[i]
            == 1 {
            "1"@
        } else {
            "0"@
        })
    &&& forall|key: Seq<char>| #[trigger]
        states.contains_key(key) ==> exists|i: int| 0 <= i < wires.len() && key == seq![#[trigger] wires[i]]
}

/// A row says the value of each wire by the name of the value.
pub proof fn law_rows_name_values(wires: Seq<char>, row: Seq<u8>)
    requires
        are_distinct(wires),
        phases::is_row(row, wires.len()),
    ensures
        names_values(wires, row, relations::item_states(wires, row, wires.len())),
{
    lemma_item(wires, row, wires.len());
    lemma_digits();
}

proof fn lemma_same_row(wires: Seq<char>, a: Seq<u8>, b: Seq<u8>)
    requires
        are_distinct(wires),
        phases::is_row(a, wires.len()),
        phases::is_row(b, wires.len()),
        relations::item_states(wires, a, wires.len()) == relations::item_states(wires, b, wires.len()),
    ensures
        a == b,
{
    lemma_item(wires, a, wires.len());
    lemma_item(wires, b, wires.len());
    lemma_digits();
    assert forall|i: int| 0 <= i < a.len() implies a[i] == b[i] by {
        assert(relations::item_states(wires, a, wires.len())[seq![wires[i]]] == text::decimal(a[i] as nat));
        assert(relations::item_states(wires, b, wires.len())[seq![wires[i]]] == text::decimal(b[i] as nat));
        assert(a[i] <= 1 && b[i] <= 1);
    }
    assert(a =~= b);
}

/// The number of a row, lowest digit first.
spec fn mask_of(row: Seq<u8>) -> nat {
    bits::number_of(Seq::new(row.len(), |i: int| row[i] == 1))
}

proof fn lemma_mask(row: Seq<u8>, n: nat)
    requires
        phases::is_row(row, n),
    ensures
        mask_of(row) < bits::two_to(n),
        relations::mask_values(mask_of(row), n) == row,
{
    let digits = Seq::new(row.len(), |i: int| row[i] == 1);
    bits::lemma_number_of(digits);
    let values = relations::mask_values(mask_of(row), n);
    assert forall|i: int| 0 <= i < n implies values[i] == row[i] by {
        assert(digits[i] == (row[i] == 1));
    }
    assert(values =~= row);
}

proof fn lemma_forbidden(wires: Seq<char>, allowed: Seq<States>, m: nat, states: States)
    ensures
        relations::forbidden_states(wires, allowed, m).contains(states) <==> !allowed.contains(states) && exists|mask: nat|
            mask < m && states == #[trigger] relations::mask_states(wires, mask),
    decreases m,
{
    let list = relations::forbidden_states(wires, allowed, m);
    if m > 0 {
        let last = (m - 1) as nat;
        lemma_forbidden(wires, allowed, last, states);
        let earlier = relations::forbidden_states(wires, allowed, last);
        let made = relations::mask_states(wires, last);
        if !allowed.contains(made) {
            assert(list == earlier.push(made));
            if earlier.contains(states) {
                let i = choose|i: int| 0 <= i < earlier.len() && earlier[i] == states;
                assert(list[i] == states);
            }
            if states == made {
                assert(list[list.len() - 1] == states);
            }
            if list.contains(states) && states != made {
                let i = choose|i: int| 0 <= i < list.len() && list[i] == states;
                assert(earlier[i] == states);
            }
        }
        if exists|mask: nat| mask < m && states == #[trigger] relations::mask_states(wires, mask) {
            let mask = choose|mask: nat| mask < m && states == #[trigger] relations::mask_states(wires, mask);
            if mask < last {
                assert(states == relations::mask_states(wires, mask));
            }
        }
        if exists|mask: nat| mask < last && states == #[trigger] relations::mask_states(wires, mask) {
            let mask = choose|mask: nat| mask < last && states == #[trigger] relations::mask_states(wires, mask);
            assert(mask < m && states == relations::mask_states(wires, mask));
        }
    }
}

/// Every row of values is either allowed or forbidden: allowed if and only if it is among the rows
/// of the relation.
pub proof fn law_rows_are_allowed_or_forbidden(spec: SpecModel, row: Seq<u8>)
    requires
        library::regular(spec),
        phases::is_row(row, spec.wires.len()),
    ensures
        ({
            let states = relations::item_states(spec.wires, row, spec.wires.len());
            let allowed = relations::allowed_states(spec);
            let forbidden = relations::forbidden_states(spec.wires, allowed, bits::two_to(spec.wires.len()));
            &&& allowed.contains(states) <==> spec.items.contains(row)
            &&& forbidden.contains(states) <==> !spec.items.contains(row)
        }),
{
    let (wires, n) = (spec.wires, spec.wires.len());
    let states = relations::item_states(wires, row, n);
    let allowed = relations::allowed_states(spec);
    if allowed.contains(states) {
        let i = choose|i: int| 0 <= i < allowed.len() && allowed[i] == states;
        assert(spec.items[i].len() == n);
        assert(phases::is_row(spec.items[i], n)) by {
            assert forall|j: int| 0 <= j < n implies #[trigger] spec.items[i][j] <= 1 by {}
        }
        lemma_same_row(wires, row, spec.items[i]);
        assert(spec.items[i] == row);
    }
    if spec.items.contains(row) {
        let i = choose|i: int| 0 <= i < spec.items.len() && spec.items[i] == row;
        assert(allowed[i] == states);
    }
    lemma_forbidden(wires, allowed, bits::two_to(n), states);
    lemma_mask(row, n);
    assert(states == relations::mask_states(wires, mask_of(row)));
}

/// A rule is tried with every row of values for its inputs, and with nothing else: each is a case,
/// whose outputs are those of the rule.
pub proof fn law_rules_are_tried(rules: Seq<(Seq<char>, Seq<char>)>, k: nat, i: int, row: Seq<u8>)
    requires
        0 <= i < k <= rules.len(),
        phases::is_row(row, rules[i].0.len()),
    ensures
        relations::charging_cases(rules, k).contains(
            (
                relations::item_states(rules[i].0, row, rules[i].0.len()),
                relations::char_names(rules[i].1),
            ),
        ),
    decreases k,
{
    let earlier = relations::charging_cases(rules, (k - 1) as nat);
    let last = rules[k - 1];
    let n = last.0.len();
    let added = relations::rule_cases(last, bits::two_to(n));
    let all = relations::charging_cases(rules, k);
    let case = (
        relations::item_states(rules[i].0, row, rules[i].0.len()),
        relations::char_names(rules[i].1),
    );
    if i < k - 1 {
        law_rules_are_tried(rules, (k - 1) as nat, i, row);
        let j = choose|j: int| 0 <= j < earlier.len() && earlier[j] == case;
        assert(all[j] == case);
    } else {
        lemma_mask(row, n);
        let j = mask_of(row) as int;
        assert(added[j] == case);
        assert(all[earlier.len() + j] == case);
    }
}

/// Every case of a pattern's rules comes from a rule and a row of values for its inputs.
pub proof fn law_cases_come_from_rules(
    rules: Seq<(Seq<char>, Seq<char>)>,
    k: nat,
    case: (States, Seq<Seq<char>>),
)
    requires
        k <= rules.len(),
        relations::charging_cases(rules, k).contains(case),
    ensures
        exists|i: int, row: Seq<u8>|
            0 <= i < k && #[trigger] phases::is_row(row, rules[i].0.len()) && case.0 == relations::item_states(
                rules[i].0,
                row,
                rules[i].0.len(),
            ) && case.1 == relations::char_names(rules[i].1),
    decreases k,
{
    if k > 0 {
        let earlier = relations::charging_cases(rules, (k - 1) as nat);
        let last = rules[k - 1];
        let n = last.0.len();
        let added = relations::rule_cases(last, bits::two_to(n));
        let all = relations::charging_cases(rules, k);
        let j = choose|j: int| 0 <= j < all.len() && all[j] == case;
        if j < earlier.len() {
            assert(earlier[j] == case);
            law_cases_come_from_rules(rules, (k - 1) as nat, case);
            let (i, row) = choose|i: int, row: Seq<u8>|
                0 <= i < k - 1 && #[trigger] phases::is_row(row, rules[i].0.len()) && case.0 == relations::item_states(
                    rules[i].0,
                    row,
                    rules[i].0.len(),
                ) && case.1 == relations::char_names(rules[i].1);
            assert(phases::is_row(row, rules[i].0.len()));
        } else {
            let mask = (j - earlier.len()) as nat;
            assert(added[mask as int] == case);
            let row = relations::mask_values(mask, n);
            assert(phases::is_row(row, rules[k - 1].0.len()));
        }
    }
}

/// Parts with regular entries and roles of their own.
pub open spec fn are_parts(parts: Seq<PartModel>) -> bool {
    &&& forall|i: int| 0 <= i < parts.len() ==> library::regular((#[trigger] parts[i]).spec)
    &&& forall|i: int, j: int| #![trigger parts[i], parts[j]]
        0 <= i < j < parts.len() ==> parts[i].role != parts[j].role
}

/// A choice of one row of each part's relation.
pub open spec fn are_rows(parts: Seq<PartModel>, rows: Seq<Seq<u8>>) -> bool {
    rows.len() == parts.len() && forall|i: int|
        0 <= i < rows.len() ==> parts[i].spec.items.contains(#[trigger] rows[i])
}

/// Two wires of parts are joined.
pub open spec fn is_joint(parts: Seq<PartModel>, shared: SharedModel, a: int, j: int, b: int, m: int) -> bool {
    &&& 0 <= a < parts.len() && 0 <= j < parts[a].spec.wires.len()
    &&& 0 <= b < parts.len() && 0 <= m < parts[b].spec.wires.len()
    &&& shared.left_role == parts[a].role && shared.left_port == seq![parts[a].spec.wires[j]]
    &&& shared.right_role == parts[b].role && shared.right_port == seq![parts[b].spec.wires[m]]
}

/// Two wires that are joined have one value.
pub open spec fn joint_agrees(parts: Seq<PartModel>, rows: Seq<Seq<u8>>, shared: SharedModel) -> bool {
    exists|a: int, j: int, b: int, m: int| #[trigger]
        is_joint(parts, shared, a, j, b, m) && rows[a][j] == rows[b][m]
}

/// All wires that are joined have one value.
pub open spec fn rows_agree(parts: Seq<PartModel>, rows: Seq<Seq<u8>>, shared: Seq<SharedModel>) -> bool {
    forall|k: int| 0 <= k < shared.len() ==> joint_agrees(parts, rows, #[trigger] shared[k])
}

/// A wire of a part that is not joined, as a port of the whole.
pub open spec fn is_open_wire(parts: Seq<PartModel>, shared: Seq<SharedModel>, i: int, j: int, key: Seq<char>) -> bool {
    &&& 0 <= i < parts.len() && 0 <= j < parts[i].spec.wires.len()
    &&& !composites::is_shared(shared, parts[i].role, seq![parts[i].spec.wires[j]])
    &&& key == parts[i].role + "_"@ + seq![parts[i].spec.wires[j]]
}

/// Each open wire shows its value at its port of the whole, and there are no other ports.
pub open spec fn shows_rows(
    parts: Seq<PartModel>,
    shared: Seq<SharedModel>,
    rows: Seq<Seq<u8>>,
    states: States,
    k: nat,
) -> bool {
    &&& forall|i: int, j: int, key: Seq<char>| #[trigger]
        is_open_wire(parts, shared, i, j, key) && i < k ==> states.contains_key(key) && states[key] == text::decimal(
            rows[i][j] as nat,
        )
    &&& forall|key: Seq<char>| #[trigger]
        states.contains_key(key) ==> exists|i: int, j: int| i < k && #[trigger] is_open_wire(parts, shared, i, j, key)
}

proof fn lemma_open_once(parts: Seq<PartModel>, shared: Seq<SharedModel>, i: int, j: int, p: int, q: int, key: Seq<char>)
    requires
        are_parts(parts),
        is_open_wire(parts, shared, i, j, key),
        is_open_wire(parts, shared, p, q, key),
    ensures
        i == p,
        j == q,
{
    let (a, b) = (parts[i], parts[p]);
    let bar = "_"@;
    assert(key.last() == a.spec.wires[j] && key.last() == b.spec.wires[q]);
    assert(key.len() == a.role.len() + bar.len() + 1 && key.len() == b.role.len() + bar.len() + 1);
    assert(a.role =~= key.subrange(0, a.role.len() as int));
    assert(b.role =~= key.subrange(0, b.role.len() as int));
    if i != p {
        assert(i < p || p < i);
        assert(parts[i].role != parts[p].role);
    }
    assert(library::regular(a.spec));
    if j != q {
        assert(j < q || q < j);
        assert(a.spec.wires[j] != a.spec.wires[q]);
    }
}

spec fn choice_rows(parts: Seq<PartModel>, choice: Seq<usize>) -> Seq<Seq<u8>> {
    Seq::new(parts.len(), |i: int| parts[i].spec.items[choice[i] as int])
}

proof fn lemma_part_row(part: PartModel, r: usize)
    requires
        library::regular(part.spec),
        r < part.spec.items.len(),
    ensures
        ({
            let row = composites::part_row(part, r);
            let (wires, values) = (part.spec.wires, part.spec.items[r as int]);
            &&& phases::is_row(values, wires.len())
            &&& forall|j: int|
                0 <= j < wires.len() ==> row.contains_key(seq![#[trigger] wires[j]]) && row[seq![wires[j]]]
                    == text::decimal(values[j] as nat)
            &&& forall|key: Seq<char>| #[trigger]
                row.contains_key(key) ==> exists|j: int| 0 <= j < wires.len() && key == seq![#[trigger] wires[j]]
        }),
{
    let (wires, values) = (part.spec.wires, part.spec.items[r as int]);
    assert(values.len() == wires.len());
    assert forall|j: int| 0 <= j < values.len() implies #[trigger] values[j] <= 1 by {
        assert(part.spec.items[r as int][j] <= 1);
    }
    lemma_item(wires, values, wires.len());
}

proof fn lemma_with_part(
    parts: Seq<PartModel>,
    shared: Seq<SharedModel>,
    choice: Seq<usize>,
    states: States,
    n: nat,
    k: nat,
)
    requires
        are_parts(parts),
        composites::is_choice(parts, choice),
        n < parts.len(),
        k <= parts[n as int].spec.wires.len(),
        shows_rows(parts, shared, choice_rows(parts, choice), states, n),
    ensures
        ({
            let part = parts[n as int];
            let row = composites::part_row(part, choice[n as int]);
            let after = composites::with_part(states, part, row, shared, k);
            let rows = choice_rows(parts, choice);
            &&& forall|i: int, j: int, key: Seq<char>| #[trigger]
                is_open_wire(parts, shared, i, j, key) && (i < n || (i == n && j < k)) ==> after.contains_key(key)
                    && after[key] == text::decimal(rows[i][j] as nat)
            &&& forall|key: Seq<char>| #[trigger]
                after.contains_key(key) ==> exists|i: int, j: int|
                    (i < n || (i == n && j < k)) && #[trigger] is_open_wire(parts, shared, i, j, key)
        }),
    decreases k,
{
    let part = parts[n as int];
    let row = composites::part_row(part, choice[n as int]);
    let rows = choice_rows(parts, choice);
    let after = composites::with_part(states, part, row, shared, k);
    assert(library::regular(part.spec));
    assert(choice[n as int] < part.spec.items.len());
    if k == 0 {
        assert forall|key: Seq<char>| #[trigger] after.contains_key(key) implies exists|i: int, j: int|
            (i < n || (i == n && j < k)) && #[trigger] is_open_wire(parts, shared, i, j, key) by {
            let (i, j) = choose|i: int, j: int| i < n && #[trigger] is_open_wire(parts, shared, i, j, key);
            assert(is_open_wire(parts, shared, i, j, key));
        }
    } else {
        let last = (k - 1) as nat;
        lemma_with_part(parts, shared, choice, states, n, last);
        lemma_part_row(part, choice[n as int]);
        let earlier = composites::with_part(states, part, row, shared, last);
        let wire = part.spec.wires[k - 1];
        let added = composites::renamed(part.role, seq![wire]);
        assert(library::is_wire_name(wire));
        assert forall|i: int, j: int, key: Seq<char>| #[trigger]
            is_open_wire(parts, shared, i, j, key) && (i < n || (i == n && j < k)) implies after.contains_key(key)
            && after[key] == text::decimal(rows[i][j] as nat) by {
            if i == n && j == k - 1 {
                assert(key == added);
            } else {
                assert(earlier.contains_key(key));
                if composites::is_outer(part, shared, wire) && key == added {
                    assert(is_open_wire(parts, shared, n as int, k - 1, key));
                    lemma_open_once(parts, shared, i, j, n as int, k - 1, key);
                }
            }
        }
        assert forall|key: Seq<char>| #[trigger] after.contains_key(key) implies exists|i: int, j: int|
            (i < n || (i == n && j < k)) && #[trigger] is_open_wire(parts, shared, i, j, key) by {
            if earlier.contains_key(key) {
                let (i, j) = choose|i: int, j: int|
                    (i < n || (i == n && j < last)) && #[trigger] is_open_wire(parts, shared, i, j, key);
                assert(is_open_wire(parts, shared, i, j, key));
            } else {
                assert(is_open_wire(parts, shared, n as int, k - 1, key));
            }
        }
    }
}

proof fn lemma_joined_states(parts: Seq<PartModel>, shared: Seq<SharedModel>, choice: Seq<usize>, k: nat)
    requires
        are_parts(parts),
        composites::is_choice(parts, choice),
        k <= parts.len(),
    ensures
        shows_rows(
            parts,
            shared,
            choice_rows(parts, choice),
            composites::joined_states(parts, choice, shared, k),
            k,
        ),
    decreases k,
{
    let rows = choice_rows(parts, choice);
    let states = composites::joined_states(parts, choice, shared, k);
    if k > 0 {
        let last = (k - 1) as nat;
        lemma_joined_states(parts, shared, choice, last);
        let earlier = composites::joined_states(parts, choice, shared, last);
        let n = parts[k - 1].spec.wires.len();
        lemma_with_part(parts, shared, choice, earlier, last, n);
        assert forall|i: int, j: int, key: Seq<char>| #[trigger]
            is_open_wire(parts, shared, i, j, key) && i < k implies states.contains_key(key) && states[key]
            == text::decimal(rows[i][j] as nat) by {}
        assert forall|key: Seq<char>| #[trigger] states.contains_key(key) implies exists|i: int, j: int|
            i < k && #[trigger] is_open_wire(parts, shared, i, j, key) by {
            let (i, j) = choose|i: int, j: int|
                (i < last || (i == last && j < n)) && #[trigger] is_open_wire(parts, shared, i, j, key);
            assert(is_open_wire(parts, shared, i, j, key));
        }
    }
}

proof fn lemma_position(parts: Seq<PartModel>, role: Seq<char>)
    requires
        are_parts(parts),
    ensures
        ({
            let i = composites::part_position(parts, role);
            &&& 0 <= i <= parts.len()
            &&& i < parts.len() ==> parts[i].role == role
            &&& forall|k: int| 0 <= k < parts.len() && (#[trigger] parts[k]).role == role ==> k == i
        }),
    decreases parts.len(),
{
    if parts.len() > 0 && parts[0].role != role {
        let rest = parts.drop_first();
        assert forall|i: int| 0 <= i < rest.len() implies library::regular((#[trigger] rest[i]).spec) by {
            assert(rest[i] == parts[i + 1]);
        }
        assert forall|i: int, j: int| #![trigger rest[i], rest[j]]
            0 <= i < j < rest.len() implies rest[i].role != rest[j].role by {
            assert(rest[i] == parts[i + 1] && rest[j] == parts[j + 1]);
        }
        lemma_position(rest, role);
        assert forall|k: int| 0 <= k < parts.len() && (#[trigger] parts[k]).role == role implies k
            == composites::part_position(parts, role) by {
            assert(rest[k - 1] == parts[k]);
        }
    }
}

proof fn lemma_agrees(parts: Seq<PartModel>, choice: Seq<usize>, shared: SharedModel)
    requires
        are_parts(parts),
        composites::is_choice(parts, choice),
    ensures
        composites::agrees(parts, choice, shared) <==> joint_agrees(parts, choice_rows(parts, choice), shared),
{
    let rows = choice_rows(parts, choice);
    lemma_position(parts, shared.left_role);
    lemma_position(parts, shared.right_role);
    lemma_digits();
    let a = composites::part_position(parts, shared.left_role);
    let b = composites::part_position(parts, shared.right_role);
    if a < parts.len() && b < parts.len() {
        assert(choice[a] < parts[a].spec.items.len() && choice[b] < parts[b].spec.items.len());
        lemma_part_row(parts[a], choice[a]);
        lemma_part_row(parts[b], choice[b]);
        let (left, right) = (composites::part_row(parts[a], choice[a]), composites::part_row(parts[b], choice[b]));
        if composites::agrees(parts, choice, shared) {
            assert(left.contains_key(shared.left_port) && right.contains_key(shared.right_port));
            let j = choose|j: int|
                0 <= j < parts[a].spec.wires.len() && shared.left_port == seq![#[trigger] parts[a].spec.wires[j]];
            let m = choose|m: int|
                0 <= m < parts[b].spec.wires.len() && shared.right_port == seq![#[trigger] parts[b].spec.wires[m]];
            assert(rows[a][j] <= 1 && rows[b][m] <= 1);
            assert(is_joint(parts, shared, a, j, b, m) && rows[a][j] == rows[b][m]);
        }
    }
    if exists|p: int, j: int, q: int, m: int| #[trigger]
        is_joint(parts, shared, p, j, q, m) && rows[p][j] == rows[q][m] {
        let (p, j, q, m) = choose|p: int, j: int, q: int, m: int| #[trigger]
            is_joint(parts, shared, p, j, q, m) && rows[p][j] == rows[q][m];
        assert(parts[p].role == shared.left_role && parts[q].role == shared.right_role);
        assert(p == a && q == b);
        let (x, y) = (parts[a].spec.wires[j], parts[b].spec.wires[m]);
        assert(composites::part_row(parts[a], choice[a]).contains_key(seq![x]));
        assert(composites::part_row(parts[b], choice[b]).contains_key(seq![y]));
    }
}

/// The states of a whole are allowed if and only if its parts have rows, each among the rows of its
/// own relation, that agree on every joined wire and show these states on the open ones.
pub proof fn law_whole_joins_parts(parts: Seq<PartModel>, shared: Seq<SharedModel>, states: States)
    requires
        are_parts(parts),
    ensures
        composites::is_allowed(parts, shared, states) <==> exists|rows: Seq<Seq<u8>>| #[trigger]
            are_rows(parts, rows) && rows_agree(parts, rows, shared) && shows_rows(
                parts,
                shared,
                rows,
                states,
                parts.len(),
            ),
{
    if composites::is_allowed(parts, shared, states) {
        let choice = choose|choice: Seq<usize>| #[trigger] composites::makes(parts, shared, choice, states);
        let rows = choice_rows(parts, choice);
        assert forall|i: int| 0 <= i < rows.len() implies parts[i].spec.items.contains(#[trigger] rows[i]) by {
            assert(choice[i] < parts[i].spec.items.len());
        }
        assert(are_rows(parts, rows));
        assert forall|k: int| 0 <= k < shared.len() implies joint_agrees(parts, rows, #[trigger] shared[k]) by {
            assert(composites::agrees(parts, choice, shared[k]));
            lemma_agrees(parts, choice, shared[k]);
        }
        lemma_joined_states(parts, shared, choice, parts.len());
    }
    if exists|rows: Seq<Seq<u8>>| #[trigger]
        are_rows(parts, rows) && rows_agree(parts, rows, shared) && shows_rows(parts, shared, rows, states, parts.len()) {
        let rows = choose|rows: Seq<Seq<u8>>| #[trigger]
            are_rows(parts, rows) && rows_agree(parts, rows, shared) && shows_rows(
                parts,
                shared,
                rows,
                states,
                parts.len(),
            );
        let choice = Seq::new(parts.len(), |i: int| parts[i].spec.items.index_of(rows[i]) as usize);
        assert forall|i: int| 0 <= i < choice.len() implies #[trigger] choice[i] < parts[i].spec.items.len()
            && parts[i].spec.items[choice[i] as int] == rows[i] by {
            assert(parts[i].spec.items.contains(rows[i]));
        }
        assert(choice_rows(parts, choice) =~= rows);
        assert forall|k: int| 0 <= k < shared.len() implies composites::agrees(parts, choice, #[trigger] shared[k]) by {
            lemma_agrees(parts, choice, shared[k]);
        }
        lemma_joined_states(parts, shared, choice, parts.len());
        let made = composites::joined_states(parts, choice, shared, parts.len());
        assert forall|key: Seq<char>| states.contains_key(key) == made.contains_key(key) && (made.contains_key(key)
            ==> states[key] == made[key]) by {
            if made.contains_key(key) {
                let (i, j) = choose|i: int, j: int|
                    i < parts.len() && #[trigger] is_open_wire(parts, shared, i, j, key);
                assert(is_open_wire(parts, shared, i, j, key));
            }
            if states.contains_key(key) {
                let (i, j) = choose|i: int, j: int|
                    i < parts.len() && #[trigger] is_open_wire(parts, shared, i, j, key);
                assert(is_open_wire(parts, shared, i, j, key));
            }
        }
        assert(states =~= made);
        assert(composites::makes(parts, shared, choice, states));
    }
}

proof fn lemma_digit_states(ports: Seq<Seq<char>>, mask: nat, k: nat, states: States)
    requires
        k <= ports.len(),
        forall|i: int|
            0 <= i < k ==> states.contains_key(#[trigger] ports[i]) && states[ports[i]] == (if bits::mask_bit(
                mask,
                i as nat,
            ) {
                "1"@
            } else {
                "0"@
            }),
    ensures
        forall|key: Seq<char>| #[trigger]
            composites::digit_states(ports, mask, k).contains_key(key) <==> exists|i: int|
                0 <= i < k && #[trigger] ports[i] == key,
        forall|key: Seq<char>| #[trigger]
            composites::digit_states(ports, mask, k).contains_key(key) ==> composites::digit_states(ports, mask, k)[key]
                == states[key],
    decreases k,
{
    if k > 0 {
        lemma_digit_states(ports, mask, (k - 1) as nat, states);
        assert(states.contains_key(ports[k - 1]));
        assert forall|key: Seq<char>| #[trigger]
            composites::digit_states(ports, mask, k).contains_key(key) <==> exists|i: int|
                0 <= i < k && #[trigger] ports[i] == key by {
            if composites::digit_states(ports, mask, (k - 1) as nat).contains_key(key) {
                let i = choose|i: int| 0 <= i < k - 1 && #[trigger] ports[i] == key;
                assert(ports[i] == key);
            }
            if key == ports[k - 1] {
                assert(ports[k - 1] == key);
            }
        }
        let earlier = composites::digit_states(ports, mask, (k - 1) as nat);
        assert forall|key: Seq<char>| #[trigger]
            composites::digit_states(ports, mask, k).contains_key(key) implies composites::digit_states(ports, mask, k)[key]
            == states[key] by {
            if key != ports[k - 1] {
                assert(earlier.contains_key(key));
            }
        }
    }
}

proof fn lemma_others(ports: Seq<Seq<char>>, allowed: Seq<States>, m: nat, states: States)
    ensures
        composites::other_states(ports, allowed, m).contains(states) <==> !allowed.contains(states) && exists|mask: nat|
            mask < m && states == #[trigger] composites::digit_states(ports, mask, ports.len()),
    decreases m,
{
    let list = composites::other_states(ports, allowed, m);
    if m > 0 {
        let last = (m - 1) as nat;
        lemma_others(ports, allowed, last, states);
        let earlier = composites::other_states(ports, allowed, last);
        let made = composites::digit_states(ports, last, ports.len());
        if !allowed.contains(made) {
            assert(list == earlier.push(made));
            if earlier.contains(states) {
                let i = choose|i: int| 0 <= i < earlier.len() && earlier[i] == states;
                assert(list[i] == states);
            }
            if states == made {
                assert(list[list.len() - 1] == states);
            }
            if list.contains(states) && states != made {
                let i = choose|i: int| 0 <= i < list.len() && list[i] == states;
                assert(earlier[i] == states);
            }
        }
        if exists|mask: nat| mask < m && states == #[trigger] composites::digit_states(ports, mask, ports.len()) {
            let mask = choose|mask: nat|
                mask < m && states == #[trigger] composites::digit_states(ports, mask, ports.len());
            if mask < last {
                assert(states == composites::digit_states(ports, mask, ports.len()));
            }
        }
        if exists|mask: nat| mask < last && states == #[trigger] composites::digit_states(ports, mask, ports.len()) {
            let mask = choose|mask: nat|
                mask < last && states == #[trigger] composites::digit_states(ports, mask, ports.len());
            assert(mask < m && states == composites::digit_states(ports, mask, ports.len()));
        }
    }
}

/// Every way to give the ports of a whole one of two values is either allowed or forbidden.
pub proof fn law_whole_allows_or_forbids(
    relation: CompositeRelation,
    parts: Seq<PartModel>,
    shared: Seq<SharedModel>,
    states: States,
)
    requires
        composites::is_composite_relation(relation, parts, shared),
        forall|key: Seq<char>| #[trigger]
            states.contains_key(key) <==> crate::circuit::texts(relation.external_ports@).contains(key),
        forall|key: Seq<char>| #[trigger] states.contains_key(key) ==> states[key] == "0"@ || states[key] == "1"@,
    ensures
        gadget_verifier::assignment_maps(relation.forbidden@).contains(states) <==> !gadget_verifier::assignment_maps(
            relation.allowed@,
        ).contains(states),
{
    lemma_digits();
    let ports = composites::outer_ports(parts, shared, parts.len());
    let allowed = gadget_verifier::assignment_maps(relation.allowed@);
    let n = ports.len();
    assert(crate::circuit::texts(relation.external_ports@) == ports);
    lemma_others(ports, allowed, bits::two_to(n), states);
    let digits = Seq::new(n, |i: int| states[ports[i]] == "1"@);
    bits::lemma_number_of(digits);
    let mask = bits::number_of(digits);
    assert forall|i: int| 0 <= i < n implies states.contains_key(#[trigger] ports[i]) && states[ports[i]] == (
    if bits::mask_bit(mask, i as nat) {
        "1"@
    } else {
        "0"@
    }) by {
        assert(ports.contains(ports[i]));
        assert(states.contains_key(ports[i]));
        assert(digits[i] == bits::mask_bit(mask, i as nat));
    }
    lemma_digit_states(ports, mask, n, states);
    let made = composites::digit_states(ports, mask, n);
    assert forall|key: Seq<char>| states.contains_key(key) == made.contains_key(key) && (made.contains_key(key)
        ==> states[key] == made[key]) by {
        if states.contains_key(key) {
            let i = choose|i: int| 0 <= i < n && ports[i] == key;
            assert(ports[i] == key);
        }
        if made.contains_key(key) {
            let i = choose|i: int| 0 <= i < n && #[trigger] ports[i] == key;
            assert(ports.contains(key));
        }
    }
    assert(made =~= states);
}

} // verus!
