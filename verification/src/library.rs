//! The published library of gadgets, tiles and connectors.

use crate::text::same_text;
use vstd::prelude::*;

verus! {

/// The size of a pattern: its width and its height.
#[derive(Debug, Clone, Copy, PartialEq, Eq, Structural)]
pub struct PublishedSize(pub usize, pub usize);

/// The phases of the wires in the east, the north, the west and the south.
pub type Alignment = (Option<i8>, Option<i8>, Option<i8>, Option<i8>);

/// What the library says of a pattern.
///
/// A charging rule names input and output wires: where the inputs carry values, so do the
/// outputs. The relation lists the values that the wires can carry together.
#[derive(Debug, Clone, PartialEq, Eq)]
pub struct PublishedSpec {
    pub path: &'static str,
    pub name: &'static str,
    pub size: Option<PublishedSize>,
    pub align: Option<Alignment>,
    pub charging: Vec<(&'static str, &'static str)>,
    pub relation_wires: &'static str,
    pub relation_items: Vec<Vec<u8>>,
}

/// What the library says of a pattern, over texts.
#[verifier::ext_equal]
pub struct SpecModel {
    pub path: Seq<char>,
    pub name: Seq<char>,
    pub size: Option<(nat, nat)>,
    pub align: Option<Alignment>,
    pub charging: Seq<(Seq<char>, Seq<char>)>,
    pub wires: Seq<char>,
    pub items: Seq<Seq<u8>>,
}

/// Rules, over texts.
pub open spec fn rule_models(rules: Seq<(&'static str, &'static str)>) -> Seq<(Seq<char>, Seq<char>)> {
    Seq::new(rules.len(), |i: int| (rules[i].0@, rules[i].1@))
}

/// Rows of values.
pub open spec fn item_models(items: Seq<Vec<u8>>) -> Seq<Seq<u8>> {
    Seq::new(items.len(), |i: int| items[i]@)
}

impl View for PublishedSpec {
    type V = SpecModel;

    open spec fn view(&self) -> SpecModel {
        SpecModel {
            path: self.path@,
            name: self.name@,
            size: match self.size {
                Some(size) => Some((size.0 as nat, size.1 as nat)),
                None => None,
            },
            align: self.align,
            charging: rule_models(self.charging@),
            wires: self.relation_wires@,
            items: item_models(self.relation_items@),
        }
    }
}

/// Specs, over texts.
pub open spec fn spec_models(specs: Seq<PublishedSpec>) -> Seq<SpecModel> {
    Seq::new(specs.len(), |i: int| specs[i]@)
}

fn row1(a: u8) -> (row: Vec<u8>)
    ensures
        row@ == seq![a],
{
    let mut row: Vec<u8> = Vec::new();
    row.push(a);
    assert(row@ =~= seq![a]);
    row
}

fn row2(a: u8, b: u8) -> (row: Vec<u8>)
    ensures
        row@ == seq![a, b],
{
    let mut row: Vec<u8> = Vec::new();
    row.push(a);
    row.push(b);
    assert(row@ =~= seq![a, b]);
    row
}

fn row3(a: u8, b: u8, c: u8) -> (row: Vec<u8>)
    ensures
        row@ == seq![a, b, c],
{
    let mut row: Vec<u8> = Vec::new();
    row.push(a);
    row.push(b);
    row.push(c);
    assert(row@ =~= seq![a, b, c]);
    row
}

fn row4(a: u8, b: u8, c: u8, d: u8) -> (row: Vec<u8>)
    ensures
        row@ == seq![a, b, c, d],
{
    let mut row: Vec<u8> = Vec::new();
    row.push(a);
    row.push(b);
    row.push(c);
    row.push(d);
    assert(row@ =~= seq![a, b, c, d]);
    row
}

fn items1(a: Vec<u8>) -> (items: Vec<Vec<u8>>)
    ensures
        item_models(items@) == seq![a@],
{
    let mut items: Vec<Vec<u8>> = Vec::new();
    items.push(a);
    assert(item_models(items@) =~= seq![a@]);
    items
}

fn items2(a: Vec<u8>, b: Vec<u8>) -> (items: Vec<Vec<u8>>)
    ensures
        item_models(items@) == seq![a@, b@],
{
    let mut items: Vec<Vec<u8>> = Vec::new();
    items.push(a);
    items.push(b);
    assert(item_models(items@) =~= seq![a@, b@]);
    items
}

fn items4(a: Vec<u8>, b: Vec<u8>, c: Vec<u8>, d: Vec<u8>) -> (items: Vec<Vec<u8>>)
    ensures
        item_models(items@) == seq![a@, b@, c@, d@],
{
    let mut items: Vec<Vec<u8>> = Vec::new();
    items.push(a);
    items.push(b);
    items.push(c);
    items.push(d);
    assert(item_models(items@) =~= seq![a@, b@, c@, d@]);
    items
}

fn no_charging() -> (rules: Vec<(&'static str, &'static str)>)
    ensures
        rule_models(rules@) == Seq::<(Seq<char>, Seq<char>)>::empty(),
{
    let rules: Vec<(&'static str, &'static str)> = Vec::new();
    assert(rule_models(rules@) =~= Seq::<(Seq<char>, Seq<char>)>::empty());
    rules
}

fn charging1(inputs: &'static str, outputs: &'static str) -> (rules: Vec<(&'static str, &'static str)>)
    ensures
        rule_models(rules@) == seq![(inputs@, outputs@)],
{
    let mut rules: Vec<(&'static str, &'static str)> = Vec::new();
    rules.push((inputs, outputs));
    assert(rule_models(rules@) =~= seq![(inputs@, outputs@)]);
    rules
}

fn charging2(
    inputs: &'static str,
    outputs: &'static str,
    more_inputs: &'static str,
    more_outputs: &'static str,
) -> (rules: Vec<(&'static str, &'static str)>)
    ensures
        rule_models(rules@) == seq![(inputs@, outputs@), (more_inputs@, more_outputs@)],
{
    let mut rules: Vec<(&'static str, &'static str)> = Vec::new();
    rules.push((inputs, outputs));
    rules.push((more_inputs, more_outputs));
    assert(rule_models(rules@) =~= seq![(inputs@, outputs@), (more_inputs@, more_outputs@)]);
    rules
}

/// The basic gadgets, over texts.
pub open spec fn basic_table() -> Seq<SpecModel> {
    seq![
        SpecModel {
            path: "gadgets/charger.cvs"@,
            name: "charger gadget"@,
            size: None,
            align: None,
            charging: seq![(""@, "N"@)],
            wires: "N"@,
            items: seq![seq![0u8], seq![1u8]],
        },
        SpecModel {
            path: "gadgets/splitter.cvs"@,
            name: "splitter gadget"@,
            size: None,
            align: None,
            charging: seq![("N"@, "ENS"@), ("S"@, "ENS"@)],
            wires: "ENS"@,
            items: seq![seq![1u8, 0u8, 0u8], seq![0u8, 1u8, 1u8]],
        },
        SpecModel {
            path: "gadgets/CScombo1.cvs"@,
            name: "charged turn gadget 1"@,
            size: None,
            align: None,
            charging: seq![(""@, "ES"@)],
            wires: "ES"@,
            items: seq![seq![0u8, 1u8], seq![1u8, 0u8]],
        },
        SpecModel {
            path: "gadgets/CScombo2.cvs"@,
            name: "charged turn gadget 2"@,
            size: None,
            align: None,
            charging: seq![(""@, "ES"@)],
            wires: "ES"@,
            items: seq![seq![0u8, 0u8], seq![1u8, 1u8]],
        },
        SpecModel {
            path: "gadgets/not.cvs"@,
            name: "inverter gadget"@,
            size: None,
            align: None,
            charging: seq![("E"@, "W"@)],
            wires: "EW"@,
            items: seq![seq![0u8, 1u8], seq![1u8, 0u8]],
        },
        SpecModel {
            path: "gadgets/crossing.cvs"@,
            name: "crossing gadget"@,
            size: None,
            align: None,
            charging: Seq::empty(),
            wires: "ENWS"@,
            items: seq![seq![0u8, 0u8, 1u8, 1u8], seq![0u8, 1u8, 1u8, 0u8], seq![1u8, 0u8, 0u8, 1u8], seq![1u8, 1u8, 0u8, 0u8]],
        },
        SpecModel {
            path: "gadgets/and.cvs"@,
            name: "logic gate gadget"@,
            size: None,
            align: None,
            charging: Seq::empty(),
            wires: "ENW"@,
            items: seq![seq![1u8, 1u8, 1u8], seq![0u8, 1u8, 1u8], seq![1u8, 0u8, 0u8], seq![0u8, 1u8, 0u8]],
        },
        SpecModel {
            path: "gadgets/enforcer.cvs"@,
            name: "enforcer gadget"@,
            size: None,
            align: None,
            charging: seq![(""@, "W"@)],
            wires: "W"@,
            items: seq![seq![1u8]],
        },
    ]
}

/// The basic gadgets.
pub fn published_basic_specs() -> (specs: Vec<PublishedSpec>)
    ensures
        spec_models(specs@) == basic_table(),
{
    let mut specs: Vec<PublishedSpec> = Vec::new();
    specs.push(
        PublishedSpec {
            path: "gadgets/charger.cvs",
            name: "charger gadget",
            size: None,
            align: None,
            charging: charging1("", "N"),
            relation_wires: "N",
            relation_items: items2(row1(0), row1(1)),
        },
    );
    specs.push(
        PublishedSpec {
            path: "gadgets/splitter.cvs",
            name: "splitter gadget",
            size: None,
            align: None,
            charging: charging2("N", "ENS", "S", "ENS"),
            relation_wires: "ENS",
            relation_items: items2(row3(1, 0, 0), row3(0, 1, 1)),
        },
    );
    specs.push(
        PublishedSpec {
            path: "gadgets/CScombo1.cvs",
            name: "charged turn gadget 1",
            size: None,
            align: None,
            charging: charging1("", "ES"),
            relation_wires: "ES",
            relation_items: items2(row2(0, 1), row2(1, 0)),
        },
    );
    specs.push(
        PublishedSpec {
            path: "gadgets/CScombo2.cvs",
            name: "charged turn gadget 2",
            size: None,
            align: None,
            charging: charging1("", "ES"),
            relation_wires: "ES",
            relation_items: items2(row2(0, 0), row2(1, 1)),
        },
    );
    specs.push(
        PublishedSpec {
            path: "gadgets/not.cvs",
            name: "inverter gadget",
            size: None,
            align: None,
            charging: charging1("E", "W"),
            relation_wires: "EW",
            relation_items: items2(row2(0, 1), row2(1, 0)),
        },
    );
    specs.push(
        PublishedSpec {
            path: "gadgets/crossing.cvs",
            name: "crossing gadget",
            size: None,
            align: None,
            charging: no_charging(),
            relation_wires: "ENWS",
            relation_items: items4(row4(0, 0, 1, 1), row4(0, 1, 1, 0), row4(1, 0, 0, 1), row4(1, 1, 0, 0)),
        },
    );
    specs.push(
        PublishedSpec {
            path: "gadgets/and.cvs",
            name: "logic gate gadget",
            size: None,
            align: None,
            charging: no_charging(),
            relation_wires: "ENW",
            relation_items: items4(row3(1, 1, 1), row3(0, 1, 1), row3(1, 0, 0), row3(0, 1, 0)),
        },
    );
    specs.push(
        PublishedSpec {
            path: "gadgets/enforcer.cvs",
            name: "enforcer gadget",
            size: None,
            align: None,
            charging: charging1("", "W"),
            relation_wires: "W",
            relation_items: items1(row1(1)),
        },
    );
    assert(spec_models(specs@) =~= basic_table());
    specs
}

/// The square tiles, over texts.
pub open spec fn tile_table() -> Seq<SpecModel> {
    seq![
        SpecModel {
            path: "small_squares/hor-wire.cvs"@,
            name: "horizontal wire tile"@,
            size: Some((90nat, 90nat)),
            align: Some((Some(0i8), None, Some(0i8), None)),
            charging: Seq::empty(),
            wires: "EW"@,
            items: seq![seq![0u8, 0u8], seq![1u8, 1u8]],
        },
        SpecModel {
            path: "small_squares/ver-wire.cvs"@,
            name: "vertical wire tile"@,
            size: Some((90nat, 90nat)),
            align: Some((None, Some(0i8), None, Some(0i8))),
            charging: Seq::empty(),
            wires: "NS"@,
            items: seq![seq![0u8, 0u8], seq![1u8, 1u8]],
        },
        SpecModel {
            path: "small_squares/ne-turn.cvs"@,
            name: "NE turn tile"@,
            size: Some((90nat, 90nat)),
            align: Some((Some(1i8), Some(1i8), None, None)),
            charging: Seq::empty(),
            wires: "NE"@,
            items: seq![seq![0u8, 0u8], seq![1u8, 1u8]],
        },
        SpecModel {
            path: "small_squares/nw-turn.cvs"@,
            name: "NW turn tile"@,
            size: Some((90nat, 90nat)),
            align: Some((None, Some(1i8), Some(1i8), None)),
            charging: Seq::empty(),
            wires: "NW"@,
            items: seq![seq![0u8, 0u8], seq![1u8, 1u8]],
        },
        SpecModel {
            path: "small_squares/sw-turn.cvs"@,
            name: "SW turn tile"@,
            size: Some((90nat, 90nat)),
            align: Some((None, None, Some(-1i8), Some(-1i8))),
            charging: Seq::empty(),
            wires: "SW"@,
            items: seq![seq![0u8, 0u8], seq![1u8, 1u8]],
        },
        SpecModel {
            path: "small_squares/se-turn.cvs"@,
            name: "SE turn tile"@,
            size: Some((90nat, 90nat)),
            align: Some((Some(-1i8), None, None, Some(-1i8))),
            charging: Seq::empty(),
            wires: "SE"@,
            items: seq![seq![0u8, 0u8], seq![1u8, 1u8]],
        },
        SpecModel {
            path: "small_squares/not.cvs"@,
            name: "NOT gate tile"@,
            size: Some((90nat, 90nat)),
            align: Some((Some(0i8), None, Some(1i8), None)),
            charging: Seq::empty(),
            wires: "EW"@,
            items: seq![seq![0u8, 1u8], seq![1u8, 0u8]],
        },
        SpecModel {
            path: "small_squares/one.cvs"@,
            name: "always-1 tile"@,
            size: Some((90nat, 90nat)),
            align: Some((None, None, Some(0i8), None)),
            charging: Seq::empty(),
            wires: "W"@,
            items: seq![seq![1u8]],
        },
        SpecModel {
            path: "small_squares/split.cvs"@,
            name: "splitter tile"@,
            size: Some((90nat, 90nat)),
            align: Some((Some(-1i8), Some(-1i8), None, Some(-1i8))),
            charging: Seq::empty(),
            wires: "ENS"@,
            items: seq![seq![0u8, 0u8, 0u8], seq![1u8, 1u8, 1u8]],
        },
        SpecModel {
            path: "small_squares/cross.cvs"@,
            name: "crossing tile"@,
            size: Some((90nat, 90nat)),
            align: Some((Some(-1i8), Some(0i8), Some(0i8), Some(-1i8))),
            charging: Seq::empty(),
            wires: "ENWS"@,
            items: seq![seq![0u8, 0u8, 0u8, 0u8], seq![0u8, 1u8, 0u8, 1u8], seq![1u8, 0u8, 1u8, 0u8], seq![1u8, 1u8, 1u8, 1u8]],
        },
        SpecModel {
            path: "small_squares/or.cvs"@,
            name: "OR gate tile"@,
            size: Some((90nat, 90nat)),
            align: Some((Some(0i8), Some(0i8), None, Some(-1i8))),
            charging: Seq::empty(),
            wires: "ENS"@,
            items: seq![seq![0u8, 0u8, 0u8], seq![1u8, 0u8, 1u8], seq![1u8, 1u8, 0u8], seq![1u8, 1u8, 1u8]],
        },
    ]
}

/// The square tiles.
pub fn published_tile_specs() -> (specs: Vec<PublishedSpec>)
    ensures
        spec_models(specs@) == tile_table(),
{
    let mut specs: Vec<PublishedSpec> = Vec::new();
    specs.push(
        PublishedSpec {
            path: "small_squares/hor-wire.cvs",
            name: "horizontal wire tile",
            size: Some(PublishedSize(90, 90)),
            align: Some((Some(0), None, Some(0), None)),
            charging: no_charging(),
            relation_wires: "EW",
            relation_items: items2(row2(0, 0), row2(1, 1)),
        },
    );
    specs.push(
        PublishedSpec {
            path: "small_squares/ver-wire.cvs",
            name: "vertical wire tile",
            size: Some(PublishedSize(90, 90)),
            align: Some((None, Some(0), None, Some(0))),
            charging: no_charging(),
            relation_wires: "NS",
            relation_items: items2(row2(0, 0), row2(1, 1)),
        },
    );
    specs.push(
        PublishedSpec {
            path: "small_squares/ne-turn.cvs",
            name: "NE turn tile",
            size: Some(PublishedSize(90, 90)),
            align: Some((Some(1), Some(1), None, None)),
            charging: no_charging(),
            relation_wires: "NE",
            relation_items: items2(row2(0, 0), row2(1, 1)),
        },
    );
    specs.push(
        PublishedSpec {
            path: "small_squares/nw-turn.cvs",
            name: "NW turn tile",
            size: Some(PublishedSize(90, 90)),
            align: Some((None, Some(1), Some(1), None)),
            charging: no_charging(),
            relation_wires: "NW",
            relation_items: items2(row2(0, 0), row2(1, 1)),
        },
    );
    specs.push(
        PublishedSpec {
            path: "small_squares/sw-turn.cvs",
            name: "SW turn tile",
            size: Some(PublishedSize(90, 90)),
            align: Some((None, None, Some(-1), Some(-1))),
            charging: no_charging(),
            relation_wires: "SW",
            relation_items: items2(row2(0, 0), row2(1, 1)),
        },
    );
    specs.push(
        PublishedSpec {
            path: "small_squares/se-turn.cvs",
            name: "SE turn tile",
            size: Some(PublishedSize(90, 90)),
            align: Some((Some(-1), None, None, Some(-1))),
            charging: no_charging(),
            relation_wires: "SE",
            relation_items: items2(row2(0, 0), row2(1, 1)),
        },
    );
    specs.push(
        PublishedSpec {
            path: "small_squares/not.cvs",
            name: "NOT gate tile",
            size: Some(PublishedSize(90, 90)),
            align: Some((Some(0), None, Some(1), None)),
            charging: no_charging(),
            relation_wires: "EW",
            relation_items: items2(row2(0, 1), row2(1, 0)),
        },
    );
    specs.push(
        PublishedSpec {
            path: "small_squares/one.cvs",
            name: "always-1 tile",
            size: Some(PublishedSize(90, 90)),
            align: Some((None, None, Some(0), None)),
            charging: no_charging(),
            relation_wires: "W",
            relation_items: items1(row1(1)),
        },
    );
    specs.push(
        PublishedSpec {
            path: "small_squares/split.cvs",
            name: "splitter tile",
            size: Some(PublishedSize(90, 90)),
            align: Some((Some(-1), Some(-1), None, Some(-1))),
            charging: no_charging(),
            relation_wires: "ENS",
            relation_items: items2(row3(0, 0, 0), row3(1, 1, 1)),
        },
    );
    specs.push(
        PublishedSpec {
            path: "small_squares/cross.cvs",
            name: "crossing tile",
            size: Some(PublishedSize(90, 90)),
            align: Some((Some(-1), Some(0), Some(0), Some(-1))),
            charging: no_charging(),
            relation_wires: "ENWS",
            relation_items: items4(row4(0, 0, 0, 0), row4(0, 1, 0, 1), row4(1, 0, 1, 0), row4(1, 1, 1, 1)),
        },
    );
    specs.push(
        PublishedSpec {
            path: "small_squares/or.cvs",
            name: "OR gate tile",
            size: Some(PublishedSize(90, 90)),
            align: Some((Some(0), Some(0), None, Some(-1))),
            charging: no_charging(),
            relation_wires: "ENS",
            relation_items: items4(row3(0, 0, 0), row3(1, 0, 1), row3(1, 1, 0), row3(1, 1, 1)),
        },
    );
    assert(spec_models(specs@) =~= tile_table());
    specs
}

/// The connectors between phases, over texts.
pub open spec fn connector_table() -> Seq<SpecModel> {
    seq![
        SpecModel {
            path: "connectors/connector-n1-n1.cvs"@,
            name: "connector -1 to -1"@,
            size: Some((180nat, 90nat)),
            align: Some((Some(-1i8), None, Some(-1i8), None)),
            charging: seq![(""@, "EW"@)],
            wires: "EW"@,
            items: seq![seq![0u8, 0u8], seq![1u8, 1u8]],
        },
        SpecModel {
            path: "connectors/connector-0-n1.cvs"@,
            name: "connector 0 to -1"@,
            size: Some((180nat, 90nat)),
            align: Some((Some(-1i8), None, Some(0i8), None)),
            charging: seq![(""@, "EW"@)],
            wires: "EW"@,
            items: seq![seq![0u8, 0u8], seq![1u8, 1u8]],
        },
        SpecModel {
            path: "connectors/connector-1-n1.cvs"@,
            name: "connector 1 to -1"@,
            size: Some((180nat, 90nat)),
            align: Some((Some(-1i8), None, Some(1i8), None)),
            charging: seq![(""@, "EW"@)],
            wires: "EW"@,
            items: seq![seq![0u8, 0u8], seq![1u8, 1u8]],
        },
        SpecModel {
            path: "connectors/connector-n1-0.cvs"@,
            name: "connector -1 to 0"@,
            size: Some((180nat, 90nat)),
            align: Some((Some(0i8), None, Some(-1i8), None)),
            charging: seq![(""@, "EW"@)],
            wires: "EW"@,
            items: seq![seq![0u8, 0u8], seq![1u8, 1u8]],
        },
        SpecModel {
            path: "connectors/connector-0-0.cvs"@,
            name: "connector 0 to 0"@,
            size: Some((180nat, 90nat)),
            align: Some((Some(0i8), None, Some(0i8), None)),
            charging: seq![(""@, "EW"@)],
            wires: "EW"@,
            items: seq![seq![0u8, 0u8], seq![1u8, 1u8]],
        },
        SpecModel {
            path: "connectors/connector-1-0.cvs"@,
            name: "connector 1 to 0"@,
            size: Some((180nat, 90nat)),
            align: Some((Some(0i8), None, Some(1i8), None)),
            charging: seq![(""@, "EW"@)],
            wires: "EW"@,
            items: seq![seq![0u8, 0u8], seq![1u8, 1u8]],
        },
        SpecModel {
            path: "connectors/connector-n1-1.cvs"@,
            name: "connector -1 to 1"@,
            size: Some((180nat, 90nat)),
            align: Some((Some(1i8), None, Some(-1i8), None)),
            charging: seq![(""@, "EW"@)],
            wires: "EW"@,
            items: seq![seq![0u8, 0u8], seq![1u8, 1u8]],
        },
        SpecModel {
            path: "connectors/connector-0-1.cvs"@,
            name: "connector 0 to 1"@,
            size: Some((180nat, 90nat)),
            align: Some((Some(1i8), None, Some(0i8), None)),
            charging: seq![(""@, "EW"@)],
            wires: "EW"@,
            items: seq![seq![0u8, 0u8], seq![1u8, 1u8]],
        },
        SpecModel {
            path: "connectors/connector-1-1.cvs"@,
            name: "connector 1 to 1"@,
            size: Some((180nat, 90nat)),
            align: Some((Some(1i8), None, Some(1i8), None)),
            charging: seq![(""@, "EW"@)],
            wires: "EW"@,
            items: seq![seq![0u8, 0u8], seq![1u8, 1u8]],
        },
    ]
}

/// The connectors between phases.
pub fn published_connector_specs() -> (specs: Vec<PublishedSpec>)
    ensures
        spec_models(specs@) == connector_table(),
{
    let mut specs: Vec<PublishedSpec> = Vec::new();
    specs.push(
        PublishedSpec {
            path: "connectors/connector-n1-n1.cvs",
            name: "connector -1 to -1",
            size: Some(PublishedSize(180, 90)),
            align: Some((Some(-1), None, Some(-1), None)),
            charging: charging1("", "EW"),
            relation_wires: "EW",
            relation_items: items2(row2(0, 0), row2(1, 1)),
        },
    );
    specs.push(
        PublishedSpec {
            path: "connectors/connector-0-n1.cvs",
            name: "connector 0 to -1",
            size: Some(PublishedSize(180, 90)),
            align: Some((Some(-1), None, Some(0), None)),
            charging: charging1("", "EW"),
            relation_wires: "EW",
            relation_items: items2(row2(0, 0), row2(1, 1)),
        },
    );
    specs.push(
        PublishedSpec {
            path: "connectors/connector-1-n1.cvs",
            name: "connector 1 to -1",
            size: Some(PublishedSize(180, 90)),
            align: Some((Some(-1), None, Some(1), None)),
            charging: charging1("", "EW"),
            relation_wires: "EW",
            relation_items: items2(row2(0, 0), row2(1, 1)),
        },
    );
    specs.push(
        PublishedSpec {
            path: "connectors/connector-n1-0.cvs",
            name: "connector -1 to 0",
            size: Some(PublishedSize(180, 90)),
            align: Some((Some(0), None, Some(-1), None)),
            charging: charging1("", "EW"),
            relation_wires: "EW",
            relation_items: items2(row2(0, 0), row2(1, 1)),
        },
    );
    specs.push(
        PublishedSpec {
            path: "connectors/connector-0-0.cvs",
            name: "connector 0 to 0",
            size: Some(PublishedSize(180, 90)),
            align: Some((Some(0), None, Some(0), None)),
            charging: charging1("", "EW"),
            relation_wires: "EW",
            relation_items: items2(row2(0, 0), row2(1, 1)),
        },
    );
    specs.push(
        PublishedSpec {
            path: "connectors/connector-1-0.cvs",
            name: "connector 1 to 0",
            size: Some(PublishedSize(180, 90)),
            align: Some((Some(0), None, Some(1), None)),
            charging: charging1("", "EW"),
            relation_wires: "EW",
            relation_items: items2(row2(0, 0), row2(1, 1)),
        },
    );
    specs.push(
        PublishedSpec {
            path: "connectors/connector-n1-1.cvs",
            name: "connector -1 to 1",
            size: Some(PublishedSize(180, 90)),
            align: Some((Some(1), None, Some(-1), None)),
            charging: charging1("", "EW"),
            relation_wires: "EW",
            relation_items: items2(row2(0, 0), row2(1, 1)),
        },
    );
    specs.push(
        PublishedSpec {
            path: "connectors/connector-0-1.cvs",
            name: "connector 0 to 1",
            size: Some(PublishedSize(180, 90)),
            align: Some((Some(1), None, Some(0), None)),
            charging: charging1("", "EW"),
            relation_wires: "EW",
            relation_items: items2(row2(0, 0), row2(1, 1)),
        },
    );
    specs.push(
        PublishedSpec {
            path: "connectors/connector-1-1.cvs",
            name: "connector 1 to 1",
            size: Some(PublishedSize(180, 90)),
            align: Some((Some(1), None, Some(1), None)),
            charging: charging1("", "EW"),
            relation_wires: "EW",
            relation_items: items2(row2(0, 0), row2(1, 1)),
        },
    );
    assert(spec_models(specs@) =~= connector_table());
    specs
}

/// The whole library: gadgets, tiles and connectors.
pub open spec fn part1_table() -> Seq<SpecModel> {
    basic_table() + tile_table() + connector_table()
}

/// The whole library: gadgets, tiles and connectors.
pub fn published_part1_specs() -> (specs: Vec<PublishedSpec>)
    ensures
        spec_models(specs@) == part1_table(),
{
    let mut specs: Vec<PublishedSpec> = published_basic_specs();
    let mut tiles: Vec<PublishedSpec> = published_tile_specs();
    let mut connectors: Vec<PublishedSpec> = published_connector_specs();
    let ghost first = specs@;
    let ghost second = tiles@;
    let ghost third = connectors@;
    specs.append(&mut tiles);
    specs.append(&mut connectors);
    assert(spec_models(specs@) =~= spec_models(first) + spec_models(second) + spec_models(third));
    specs
}

/// The first entry with a name.
pub open spec fn named_entry(table: Seq<SpecModel>, name: Seq<char>) -> Option<SpecModel>
    decreases table.len(),
{
    if table.len() == 0 {
        None
    } else if table[0].name == name {
        Some(table[0])
    } else {
        named_entry(table.drop_first(), name)
    }
}

/// What the library says of the pattern with a name.
pub open spec fn spec_named(name: Seq<char>) -> Option<SpecModel> {
    named_entry(part1_table(), name)
}

pub proof fn lemma_named_entry(table: Seq<SpecModel>, name: Seq<char>, i: int)
    requires
        0 <= i <= table.len(),
        forall|j: int| 0 <= j < i ==> (#[trigger] table[j]).name != name,
        i < table.len() ==> table[i].name == name,
    ensures
        named_entry(table, name) == (if i < table.len() {
            Some(table[i])
        } else {
            None
        }),
    decreases table.len(),
{
    if table.len() > 0 && i > 0 {
        assert(table[0].name != name);
        let rest = table.drop_first();
        assert forall|j: int| 0 <= j < i - 1 implies (#[trigger] rest[j]).name != name by {
            assert(rest[j] == table[j + 1]);
        }
        lemma_named_entry(rest, name, i - 1);
    }
}

/// What the library says of the pattern with a name.
pub fn published_spec_named(name: &str) -> (found: Option<PublishedSpec>)
    ensures
        match found {
            Some(spec) => spec_named(name@) == Some(spec@),
            None => spec_named(name@) is None,
        },
{
    let mut specs: Vec<PublishedSpec> = published_part1_specs();
    let ghost table = spec_models(specs@);
    let mut i: usize = 0;
    while i < specs.len()
        invariant
            i <= specs@.len(),
            table == spec_models(specs@),
            table == part1_table(),
            forall|j: int| 0 <= j < i ==> (#[trigger] table[j]).name != name@,
        decreases specs.len() - i,
    {
        assert(table[i as int] == specs@[i as int]@);
        if same_text(specs[i].name, name) {
            proof {
                lemma_named_entry(table, name@, i as int);
            }
            return Some(specs.swap_remove(i));
        }
        i += 1;
    }
    proof {
        lemma_named_entry(table, name@, i as int);
    }
    None
}

/// An entry of the library is regular: it has few wires, every item gives each wire one of
/// two values, and its rules are short.
pub open spec fn regular(spec: SpecModel) -> bool {
    &&& 1 <= spec.wires.len() <= 4
    &&& forall|i: int| 0 <= i < spec.wires.len() ==> is_wire_name(#[trigger] spec.wires[i])
    &&& forall|i: int, j: int| #![trigger spec.wires[i], spec.wires[j]]
        0 <= i < j < spec.wires.len() ==> spec.wires[i] != spec.wires[j]
    &&& spec.items.len() <= 16
    &&& forall|i: int| 0 <= i < spec.items.len() ==> (#[trigger] spec.items[i]).len() == spec.wires.len()
    &&& forall|i: int, j: int|
        0 <= i < spec.items.len() && 0 <= j < spec.items[i].len() ==> #[trigger] spec.items[i][j] <= 1
    &&& spec.charging.len() <= 2
    &&& forall|i: int|
        0 <= i < spec.charging.len() ==> (#[trigger] spec.charging[i]).0.len() <= 4 && spec.charging[i].1.len() <= 4
}

/// A wire is named after the edge at which it ends.
pub open spec fn is_wire_name(c: char) -> bool {
    c == 'E' || c == 'N' || c == 'W' || c == 'S'
}

proof fn lemma_basic_regular(i: int)
    requires
        0 <= i < basic_table().len(),
    ensures
        regular(basic_table()[i]),
{
    lemma_wire_texts();
}

proof fn lemma_tile_regular(i: int)
    requires
        0 <= i < tile_table().len(),
    ensures
        regular(tile_table()[i]),
{
    lemma_wire_texts();
}

proof fn lemma_connector_regular(i: int)
    requires
        0 <= i < connector_table().len(),
    ensures
        regular(connector_table()[i]),
{
    lemma_wire_texts();
}

/// Every entry of the library is regular.
pub proof fn lemma_regular(i: int)
    requires
        0 <= i < part1_table().len(),
    ensures
        regular(part1_table()[i]),
{
    let basic = basic_table().len();
    let tiles = tile_table().len();
    if i < basic {
        lemma_basic_regular(i);
    } else if i < basic + tiles {
        lemma_tile_regular(i - basic);
    } else {
        lemma_connector_regular(i - basic - tiles);
    }
}

proof fn lemma_named_regular(table: Seq<SpecModel>, name: Seq<char>)
    requires
        forall|i: int| 0 <= i < table.len() ==> regular(#[trigger] table[i]),
    ensures
        named_entry(table, name) matches Some(spec) ==> regular(spec) && spec.name == name,
    decreases table.len(),
{
    if table.len() > 0 && table[0].name != name {
        let rest = table.drop_first();
        assert forall|i: int| 0 <= i < rest.len() implies regular(#[trigger] rest[i]) by {
            assert(rest[i] == table[i + 1]);
        }
        lemma_named_regular(rest, name);
    }
}

/// The entry with a name is regular.
pub proof fn lemma_spec_named(name: Seq<char>)
    ensures
        spec_named(name) matches Some(spec) ==> regular(spec) && spec.name == name,
{
    assert forall|i: int| 0 <= i < part1_table().len() implies regular(#[trigger] part1_table()[i]) by {
        lemma_regular(i);
    }
    lemma_named_regular(part1_table(), name);
}

/// The texts that name wires.
pub proof fn lemma_wire_texts()
    ensures
        "ENS"@ == seq!['E', 'N', 'S'],
        "ENW"@ == seq!['E', 'N', 'W'],
        "ENWS"@ == seq!['E', 'N', 'W', 'S'],
        "ES"@ == seq!['E', 'S'],
        "EW"@ == seq!['E', 'W'],
        "E"@ == seq!['E'],
        "N"@ == seq!['N'],
        "S"@ == seq!['S'],
        "NE"@ == seq!['N', 'E'],
        "NS"@ == seq!['N', 'S'],
        "NW"@ == seq!['N', 'W'],
        "SE"@ == seq!['S', 'E'],
        "SW"@ == seq!['S', 'W'],
        "W"@ == seq!['W'],
        ""@ == Seq::<char>::empty(),
{
    reveal_strlit("ENS");
    reveal_strlit("ENW");
    reveal_strlit("ENWS");
    reveal_strlit("ES");
    reveal_strlit("EW");
    reveal_strlit("E");
    reveal_strlit("N");
    reveal_strlit("S");
    reveal_strlit("NE");
    reveal_strlit("NS");
    reveal_strlit("NW");
    reveal_strlit("SE");
    reveal_strlit("SW");
    reveal_strlit("W");
    reveal_strlit("");
    assert("ENS"@ =~= seq!['E', 'N', 'S']);
    assert("ENW"@ =~= seq!['E', 'N', 'W']);
    assert("ENWS"@ =~= seq!['E', 'N', 'W', 'S']);
    assert("ES"@ =~= seq!['E', 'S']);
    assert("EW"@ =~= seq!['E', 'W']);
    assert("E"@ =~= seq!['E']);
    assert("N"@ =~= seq!['N']);
    assert("S"@ =~= seq!['S']);
    assert("NE"@ =~= seq!['N', 'E']);
    assert("NS"@ =~= seq!['N', 'S']);
    assert("NW"@ =~= seq!['N', 'W']);
    assert("SE"@ =~= seq!['S', 'E']);
    assert("SW"@ =~= seq!['S', 'W']);
    assert("W"@ =~= seq!['W']);
    assert(""@ =~= Seq::<char>::empty());
}

} // verus!
