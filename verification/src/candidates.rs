//! Where patterns stand beside each other: distances that are known to work.

use crate::text::same_text;
use vstd::prelude::*;

verus! {

/// Where a connector and the pattern to its right stand, relative to the pattern to its left.
#[derive(Debug, Clone, Copy, PartialEq, Eq)]
pub struct HorizontalPlacementCandidate {
    pub connector_delta: (i32, i32),
    pub right_delta: (i32, i32),
}

/// Where a pattern stands, relative to the pattern above it.
#[derive(Debug, Clone, Copy, PartialEq, Eq)]
pub struct VerticalPlacementCandidate {
    pub bottom_delta: (i32, i32),
}

/// A connector that stands close to the pattern on its left, and the pattern to its right.
pub open spec fn wide(x: i32, y: i32) -> HorizontalPlacementCandidate {
    HorizontalPlacementCandidate { connector_delta: (90, 0), right_delta: (x, y) }
}

/// A pattern that stands straight below another.
pub open spec fn high(y: i32) -> VerticalPlacementCandidate {
    VerticalPlacementCandidate { bottom_delta: (0, y) }
}

/// The known places of a connector and the pattern to its right.
pub open spec fn known_across(left: Seq<char>, connector: Seq<char>, right: Seq<char>) -> Seq<
    HorizontalPlacementCandidate,
> {
    if left == "horizontal wire tile"@ && connector == "connector 0 to 0"@ && right == "horizontal wire tile"@ {
        seq![wide(258, 0), wide(261, 0)]
    } else if left == "horizontal wire tile"@ && connector == "connector 0 to -1"@ && right == "SW turn tile"@ {
        seq![wide(258, 0), wide(261, 0)]
    } else if left == "NOT gate tile"@ && connector == "connector 0 to 0"@ && right == "horizontal wire tile"@ {
        seq![wide(261, 0), wide(264, 0), wide(267, 0)]
    } else if left == "NOT gate tile"@ && connector == "connector 0 to 1"@ && right == "NW turn tile"@ {
        seq![wide(264, 0), wide(267, 0), wide(270, 0)]
    } else if left == "OR gate tile"@ && connector == "connector 0 to 0"@ && right == "horizontal wire tile"@ {
        seq![wide(261, 0), wide(264, 0), wide(267, 0)]
    } else if left == "OR gate tile"@ && connector == "connector 0 to 0"@ && right == "crossing tile"@ {
        seq![wide(261, 0), wide(264, 0), wide(267, 0)]
    } else if left == "SE turn tile"@ && connector == "connector -1 to 0"@ && right == "horizontal wire tile"@ {
        seq![wide(261, 0), wide(264, 0), wide(267, 0)]
    } else if left == "SE turn tile"@ && connector == "connector -1 to 1"@ && right == "NW turn tile"@ {
        seq![wide(264, 0), wide(267, 0), wide(270, 0)]
    } else if left == "NE turn tile"@ && connector == "connector 1 to 1"@ && right == "NW turn tile"@ {
        seq![wide(264, 0), wide(267, 0), wide(270, 0)]
    } else if left == "NE turn tile"@ && connector == "connector 1 to 0"@ && right == "horizontal wire tile"@ {
        seq![wide(261, 0), wide(264, 0), wide(267, 0)]
    } else if left == "crossing tile"@ && connector == "connector -1 to 0"@ && right == "horizontal wire tile"@ {
        seq![wide(261, 0), wide(264, 0), wide(267, 0)]
    } else if left == "horizontal wire tile"@ && connector == "connector 0 to 0"@ && right == "crossing tile"@ {
        seq![wide(261, 0), wide(264, 0), wide(267, 0)]
    } else if left == "horizontal wire tile"@ && connector == "connector 0 to 1"@ && right == "NW turn tile"@ {
        seq![wide(264, 0), wide(267, 0), wide(270, 0)]
    } else if left == "horizontal wire tile"@ && connector == "connector 0 to 1"@ && right == "NOT gate tile"@ {
        seq![wide(264, 0), wide(267, 0), wide(270, 0)]
    } else if left == "horizontal wire tile"@ && connector == "connector 0 to 1"@ && right == "enforcer gadget"@ {
        seq![
            wide(264, 18),
            wide(264, 19),
            wide(267, 18),
            wide(267, 19),
            wide(270, 18),
            wide(270, 19),
            wide(270, 20),
            wide(270, 21),
        ]
    } else if left == "splitter tile"@ && connector == "connector -1 to 0"@ && right == "horizontal wire tile"@ {
        seq![wide(261, 0), wide(264, 0), wide(267, 0)]
    } else {
        Seq::empty()
    }
}

/// The known places of a pattern below another.
pub open spec fn known_down(top: Seq<char>, bottom: Seq<char>) -> Seq<VerticalPlacementCandidate> {
    if top == "SW turn tile"@ && bottom == "OR gate tile"@ {
        seq![high(86), high(89)]
    } else if top == "OR gate tile"@ && bottom == "NW turn tile"@ {
        seq![high(82), high(85), high(88)]
    } else if top == "SE turn tile"@ && bottom == "NW turn tile"@ {
        seq![high(82), high(85), high(88)]
    } else if top == "SE turn tile"@ && bottom == "vertical wire tile"@ {
        seq![high(80), high(83), high(86), high(89)]
    } else if top == "OR gate tile"@ && bottom == "vertical wire tile"@ {
        seq![high(80), high(83), high(86), high(89)]
    } else if top == "SE turn tile"@ && bottom == "OR gate tile"@ {
        seq![high(80), high(83), high(86), high(89)]
    } else if top == "SE turn tile"@ && bottom == "crossing tile"@ {
        seq![high(80), high(83), high(86), high(89)]
    } else if top == "SW turn tile"@ && bottom == "NE turn tile"@ {
        seq![high(82), high(85), high(88)]
    } else if top == "SW turn tile"@ && bottom == "vertical wire tile"@ {
        seq![high(80), high(83), high(86), high(89)]
    } else if top == "crossing tile"@ && bottom == "vertical wire tile"@ {
        seq![high(80), high(83), high(86), high(89)]
    } else if top == "crossing tile"@ && bottom == "splitter tile"@ {
        seq![high(81), high(84), high(87), high(90)]
    } else if top == "splitter tile"@ && bottom == "vertical wire tile"@ {
        seq![high(80), high(83), high(86), high(89)]
    } else if top == "splitter tile"@ && bottom == "NW turn tile"@ {
        seq![high(82), high(85), high(88)]
    } else if top == "vertical wire tile"@ && bottom == "vertical wire tile"@ {
        seq![high(78), high(81), high(84), high(87), high(90)]
    } else if top == "vertical wire tile"@ && bottom == "NW turn tile"@ {
        seq![high(80), high(83), high(86), high(89)]
    } else if top == "vertical wire tile"@ && bottom == "NE turn tile"@ {
        seq![high(80), high(83), high(86), high(89)]
    } else if top == "vertical wire tile"@ && bottom == "OR gate tile"@ {
        seq![high(78), high(81), high(84), high(87), high(90)]
    } else if top == "vertical wire tile"@ && bottom == "crossing tile"@ {
        seq![high(78), high(81), high(84), high(87), high(90)]
    } else if top == "vertical wire tile"@ && bottom == "splitter tile"@ {
        seq![high(79), high(82), high(85), high(88)]
    } else {
        Seq::empty()
    }
}

/// The places of a connector and the pattern to its right, with the pattern at distances of
/// three columns.
pub open spec fn wide_steps(x: i32, n: nat) -> Seq<HorizontalPlacementCandidate> {
    Seq::new(n, |i: int| wide((x + 3 * i) as i32, 0))
}

/// The places of a pattern below another, at distances of three rows.
pub open spec fn high_steps(y: i32, n: nat) -> Seq<VerticalPlacementCandidate> {
    Seq::new(n, |i: int| high((y + 3 * i) as i32))
}

fn wide_list(x: i32, n: usize) -> (list: Vec<HorizontalPlacementCandidate>)
    requires
        0 <= x <= 1000,
        n <= 10,
    ensures
        list@ == wide_steps(x, n as nat),
{
    let mut list: Vec<HorizontalPlacementCandidate> = Vec::new();
    let mut i: usize = 0;
    while i < n
        invariant
            i <= n <= 10,
            0 <= x <= 1000,
            list@ == wide_steps(x, i as nat),
        decreases n - i,
    {
        list.push(HorizontalPlacementCandidate { connector_delta: (90, 0), right_delta: (x + 3 * i as i32, 0) });
        assert(list@ =~= wide_steps(x, (i + 1) as nat));
        i += 1;
    }
    list
}

fn high_list(y: i32, n: usize) -> (list: Vec<VerticalPlacementCandidate>)
    requires
        0 <= y <= 1000,
        n <= 10,
    ensures
        list@ == high_steps(y, n as nat),
{
    let mut list: Vec<VerticalPlacementCandidate> = Vec::new();
    let mut i: usize = 0;
    while i < n
        invariant
            i <= n <= 10,
            0 <= y <= 1000,
            list@ == high_steps(y, i as nat),
        decreases n - i,
    {
        list.push(VerticalPlacementCandidate { bottom_delta: (0, y + 3 * i as i32) });
        assert(list@ =~= high_steps(y, (i + 1) as nat));
        i += 1;
    }
    list
}

fn enforcer_list() -> (list: Vec<HorizontalPlacementCandidate>)
    ensures
        list@ == seq![
            wide(264, 18),
            wide(264, 19),
            wide(267, 18),
            wide(267, 19),
            wide(270, 18),
            wide(270, 19),
            wide(270, 20),
            wide(270, 21),
        ],
{
    let mut list: Vec<HorizontalPlacementCandidate> = Vec::new();
    list.push(HorizontalPlacementCandidate { connector_delta: (90, 0), right_delta: (264, 18) });
    list.push(HorizontalPlacementCandidate { connector_delta: (90, 0), right_delta: (264, 19) });
    list.push(HorizontalPlacementCandidate { connector_delta: (90, 0), right_delta: (267, 18) });
    list.push(HorizontalPlacementCandidate { connector_delta: (90, 0), right_delta: (267, 19) });
    list.push(HorizontalPlacementCandidate { connector_delta: (90, 0), right_delta: (270, 18) });
    list.push(HorizontalPlacementCandidate { connector_delta: (90, 0), right_delta: (270, 19) });
    list.push(HorizontalPlacementCandidate { connector_delta: (90, 0), right_delta: (270, 20) });
    list.push(HorizontalPlacementCandidate { connector_delta: (90, 0), right_delta: (270, 21) });
    assert(list@ =~= seq![
        wide(264, 18),
        wide(264, 19),
        wide(267, 18),
        wide(267, 19),
        wide(270, 18),
        wide(270, 19),
        wide(270, 20),
        wide(270, 21),
    ]);
    list
}

/// The known places of a connector and the pattern to its right.
pub fn known_horizontal_placement_candidates(left_spec: &str, connector_name: &str, right_spec: &str) -> (list: Vec<
    HorizontalPlacementCandidate,
>)
    ensures
        list@ == known_across(left_spec@, connector_name@, right_spec@),
{
    let list: Vec<HorizontalPlacementCandidate> = if same_text(left_spec, "horizontal wire tile") && same_text(connector_name, "connector 0 to 0") && same_text(
        right_spec,
        "horizontal wire tile",
    ) {
        wide_list(258, 2)
    } else if same_text(left_spec, "horizontal wire tile") && same_text(connector_name, "connector 0 to -1") && same_text(
        right_spec,
        "SW turn tile",
    ) {
        wide_list(258, 2)
    } else if same_text(left_spec, "NOT gate tile") && same_text(connector_name, "connector 0 to 0") && same_text(
        right_spec,
        "horizontal wire tile",
    ) {
        wide_list(261, 3)
    } else if same_text(left_spec, "NOT gate tile") && same_text(connector_name, "connector 0 to 1") && same_text(
        right_spec,
        "NW turn tile",
    ) {
        wide_list(264, 3)
    } else if same_text(left_spec, "OR gate tile") && same_text(connector_name, "connector 0 to 0") && same_text(
        right_spec,
        "horizontal wire tile",
    ) {
        wide_list(261, 3)
    } else if same_text(left_spec, "OR gate tile") && same_text(connector_name, "connector 0 to 0") && same_text(
        right_spec,
        "crossing tile",
    ) {
        wide_list(261, 3)
    } else if same_text(left_spec, "SE turn tile") && same_text(connector_name, "connector -1 to 0") && same_text(
        right_spec,
        "horizontal wire tile",
    ) {
        wide_list(261, 3)
    } else if same_text(left_spec, "SE turn tile") && same_text(connector_name, "connector -1 to 1") && same_text(
        right_spec,
        "NW turn tile",
    ) {
        wide_list(264, 3)
    } else if same_text(left_spec, "NE turn tile") && same_text(connector_name, "connector 1 to 1") && same_text(
        right_spec,
        "NW turn tile",
    ) {
        wide_list(264, 3)
    } else if same_text(left_spec, "NE turn tile") && same_text(connector_name, "connector 1 to 0") && same_text(
        right_spec,
        "horizontal wire tile",
    ) {
        wide_list(261, 3)
    } else if same_text(left_spec, "crossing tile") && same_text(connector_name, "connector -1 to 0") && same_text(
        right_spec,
        "horizontal wire tile",
    ) {
        wide_list(261, 3)
    } else if same_text(left_spec, "horizontal wire tile") && same_text(connector_name, "connector 0 to 0") && same_text(
        right_spec,
        "crossing tile",
    ) {
        wide_list(261, 3)
    } else if same_text(left_spec, "horizontal wire tile") && same_text(connector_name, "connector 0 to 1") && same_text(
        right_spec,
        "NW turn tile",
    ) {
        wide_list(264, 3)
    } else if same_text(left_spec, "horizontal wire tile") && same_text(connector_name, "connector 0 to 1") && same_text(
        right_spec,
        "NOT gate tile",
    ) {
        wide_list(264, 3)
    } else if same_text(left_spec, "horizontal wire tile") && same_text(connector_name, "connector 0 to 1") && same_text(
        right_spec,
        "enforcer gadget",
    ) {
        enforcer_list()
    } else if same_text(left_spec, "splitter tile") && same_text(connector_name, "connector -1 to 0") && same_text(
        right_spec,
        "horizontal wire tile",
    ) {
        wide_list(261, 3)
    } else {
        Vec::new()
    };
    assert(list@ =~= known_across(left_spec@, connector_name@, right_spec@));
    list
}

/// The known places of a pattern below another.
pub fn known_vertical_placement_candidates(top_spec: &str, bottom_spec: &str) -> (list: Vec<VerticalPlacementCandidate>)
    ensures
        list@ == known_down(top_spec@, bottom_spec@),
{
    let list: Vec<VerticalPlacementCandidate> = if same_text(top_spec, "SW turn tile") && same_text(bottom_spec, "OR gate tile") {
        high_list(86, 2)
    } else if same_text(top_spec, "OR gate tile") && same_text(bottom_spec, "NW turn tile") {
        high_list(82, 3)
    } else if same_text(top_spec, "SE turn tile") && same_text(bottom_spec, "NW turn tile") {
        high_list(82, 3)
    } else if same_text(top_spec, "SE turn tile") && same_text(bottom_spec, "vertical wire tile") {
        high_list(80, 4)
    } else if same_text(top_spec, "OR gate tile") && same_text(bottom_spec, "vertical wire tile") {
        high_list(80, 4)
    } else if same_text(top_spec, "SE turn tile") && same_text(bottom_spec, "OR gate tile") {
        high_list(80, 4)
    } else if same_text(top_spec, "SE turn tile") && same_text(bottom_spec, "crossing tile") {
        high_list(80, 4)
    } else if same_text(top_spec, "SW turn tile") && same_text(bottom_spec, "NE turn tile") {
        high_list(82, 3)
    } else if same_text(top_spec, "SW turn tile") && same_text(bottom_spec, "vertical wire tile") {
        high_list(80, 4)
    } else if same_text(top_spec, "crossing tile") && same_text(bottom_spec, "vertical wire tile") {
        high_list(80, 4)
    } else if same_text(top_spec, "crossing tile") && same_text(bottom_spec, "splitter tile") {
        high_list(81, 4)
    } else if same_text(top_spec, "splitter tile") && same_text(bottom_spec, "vertical wire tile") {
        high_list(80, 4)
    } else if same_text(top_spec, "splitter tile") && same_text(bottom_spec, "NW turn tile") {
        high_list(82, 3)
    } else if same_text(top_spec, "vertical wire tile") && same_text(bottom_spec, "vertical wire tile") {
        high_list(78, 5)
    } else if same_text(top_spec, "vertical wire tile") && same_text(bottom_spec, "NW turn tile") {
        high_list(80, 4)
    } else if same_text(top_spec, "vertical wire tile") && same_text(bottom_spec, "NE turn tile") {
        high_list(80, 4)
    } else if same_text(top_spec, "vertical wire tile") && same_text(bottom_spec, "OR gate tile") {
        high_list(78, 5)
    } else if same_text(top_spec, "vertical wire tile") && same_text(bottom_spec, "crossing tile") {
        high_list(78, 5)
    } else if same_text(top_spec, "vertical wire tile") && same_text(bottom_spec, "splitter tile") {
        high_list(79, 4)
    } else {
        Vec::new()
    };
    assert(list@ =~= known_down(top_spec@, bottom_spec@));
    list
}

/// The known places of the pattern to the right of a connector.
pub open spec fn known_right_deltas(left: Seq<char>, connector: Seq<char>, right: Seq<char>) -> Seq<(i32, i32)> {
    known_across(left, connector, right).map_values(|c: HorizontalPlacementCandidate| c.right_delta)
}

/// The known places of a pattern below another.
pub open spec fn known_bottom_deltas(top: Seq<char>, bottom: Seq<char>) -> Seq<(i32, i32)> {
    known_down(top, bottom).map_values(|c: VerticalPlacementCandidate| c.bottom_delta)
}

/// The known places of the pattern to the right of a connector.
pub fn curated_horizontal_candidate_deltas(left_spec: &str, connector_name: &str, right_spec: &str) -> (list: Vec<
    (i32, i32),
>)
    ensures
        list@ == known_right_deltas(left_spec@, connector_name@, right_spec@),
{
    let known: Vec<HorizontalPlacementCandidate> = known_horizontal_placement_candidates(
        left_spec,
        connector_name,
        right_spec,
    );
    let mut list: Vec<(i32, i32)> = Vec::new();
    let mut i: usize = 0;
    while i < known.len()
        invariant
            i <= known@.len(),
            list@ == known@.take(i as int).map_values(|c: HorizontalPlacementCandidate| c.right_delta),
        decreases known.len() - i,
    {
        list.push(known[i].right_delta);
        assert(list@ =~= known@.take(i + 1).map_values(|c: HorizontalPlacementCandidate| c.right_delta));
        i += 1;
    }
    assert(known@.take(i as int) =~= known@);
    list
}

/// The known places of a pattern below another.
pub fn curated_vertical_candidate_deltas(top_spec: &str, bottom_spec: &str) -> (list: Vec<(i32, i32)>)
    ensures
        list@ == known_bottom_deltas(top_spec@, bottom_spec@),
{
    let known: Vec<VerticalPlacementCandidate> = known_vertical_placement_candidates(top_spec, bottom_spec);
    let mut list: Vec<(i32, i32)> = Vec::new();
    let mut i: usize = 0;
    while i < known.len()
        invariant
            i <= known@.len(),
            list@ == known@.take(i as int).map_values(|c: VerticalPlacementCandidate| c.bottom_delta),
        decreases known.len() - i,
    {
        list.push(known[i].bottom_delta);
        assert(list@ =~= known@.take(i + 1).map_values(|c: VerticalPlacementCandidate| c.bottom_delta));
        i += 1;
    }
    assert(known@.take(i as int) =~= known@);
    list
}

} // verus!
