//! The interfaces that routings need, and certificates that cover them.

use crate::library::Alignment;
use crate::published::PatternFiles;
use crate::routing::{
    alignment_for_spec, connector_joining, HorizontalInterfaceFamily, RoutingError, RoutingFailure, RoutingWitness,
    VerticalInterfaceFamily,
};
use crate::strmap::StrMap;
use crate::tally::{add_names, Names, Tally};
use crate::text::{chars_of, push_i64, push_usize, quoted, same_text};
use crate::circuit;
use crate::routing;
use crate::seqs;
use crate::tally;
use crate::text;
use vstd::prelude::*;

verus! {

/// How two patterns stand beside each other.
#[derive(Debug, Clone, Copy, PartialEq, Eq, Structural)]
pub enum InterfaceOrientation {
    Horizontal,
    Vertical,
}

/// The name of an orientation.
pub open spec fn orientation_text(orientation: InterfaceOrientation) -> Seq<char> {
    match orientation {
        InterfaceOrientation::Horizontal => "horizontal"@,
        InterfaceOrientation::Vertical => "vertical"@,
    }
}

impl InterfaceOrientation {
    /// The name of the orientation.
    pub fn as_str(self) -> (name: &'static str)
        ensures
            name@ == orientation_text(self),
    {
        match self {
            InterfaceOrientation::Horizontal => "horizontal",
            InterfaceOrientation::Vertical => "vertical",
        }
    }
}

/// A family of interfaces that was put to the test with success.
#[derive(Debug, Clone, PartialEq, Eq)]
pub struct InterfaceBasisEntry {
    pub orientation: InterfaceOrientation,
    pub label: String,
    pub witness_count: usize,
    pub external_ports: Vec<String>,
    pub expected_allowed_rows: usize,
    pub candidate_count: usize,
}

/// The families of interfaces that were put to the test with success.
#[derive(Debug, Clone, PartialEq, Eq)]
pub struct InterfaceBasisCertificate {
    pub horizontal: Vec<InterfaceBasisEntry>,
    pub vertical: Vec<InterfaceBasisEntry>,
}

/// The families of interfaces that routings can have.
#[derive(Debug, Clone, PartialEq, Eq)]
pub struct RouterInterfaceBasis {
    pub horizontal: Vec<HorizontalInterfaceFamily>,
    pub vertical: Vec<VerticalInterfaceFamily>,
}

/// What is wrong with a basis of interfaces, over texts.
pub enum BasisFailure {
    UnknownSpec(Seq<char>),
    UnreadablePattern(Seq<char>),
    MissingConnector(Seq<char>, int, Seq<char>, int),
    Missing(Seq<char>, Seq<Seq<char>>, Seq<Seq<char>>),
    FailedReport(Seq<char>),
}

/// What is wrong with a basis of interfaces.
#[derive(Debug)]
pub enum BasisError {
    /// The library has no pattern of that name.
    UnknownSpec { name: &'static str },
    /// The phases of a pattern cannot be read from its file.
    UnreadablePattern { name: &'static str },
    /// No connector joins the two phases.
    MissingConnector { left: &'static str, left_phase: i8, right: &'static str, right_phase: i8 },
    /// A certificate does not cover these families.
    Missing { scope: &'static str, horizontal: Vec<String>, vertical: Vec<String> },
    /// A test without success makes no entry.
    FailedReport { label: String },
}

impl View for BasisError {
    type V = BasisFailure;

    open spec fn view(&self) -> BasisFailure {
        match *self {
            BasisError::UnknownSpec { name } => BasisFailure::UnknownSpec(name@),
            BasisError::UnreadablePattern { name } => BasisFailure::UnreadablePattern(name@),
            BasisError::MissingConnector { left, left_phase, right, right_phase } => BasisFailure::MissingConnector(
                left@,
                left_phase as int,
                right@,
                right_phase as int,
            ),
            BasisError::Missing { scope, horizontal, vertical } => BasisFailure::Missing(
                scope@,
                circuit::texts(horizontal@),
                circuit::texts(vertical@),
            ),
            BasisError::FailedReport { label } => BasisFailure::FailedReport(label@),
        }
    }
}

/// Texts with their quotes.
pub open spec fn quoted_texts(list: Seq<Seq<char>>) -> Seq<Seq<char>> {
    Seq::new(list.len(), |i: int| text::debug_text(list[i]))
}

/// A list of texts, as it is written.
pub open spec fn list_text(list: Seq<Seq<char>>) -> Seq<char> {
    "["@ + text::joined(quoted_texts(list), ", "@) + "]"@
}

/// Appends a list of texts.
pub(crate) fn push_list(out: &mut String, list: &Vec<String>)
    ensures
        final(out)@ == old(out)@ + list_text(circuit::texts(list@)),
{
    let ghost parts = quoted_texts(circuit::texts(list@));
    out.append("[");
    let ghost start = out@;
    let mut k: usize = 0;
    assert(out@ =~= start + text::joined(parts.take(0), ", "@));
    while k < list.len()
        invariant
            k <= list@.len(),
            parts == quoted_texts(circuit::texts(list@)),
            out@ == start + text::joined(parts.take(k as int), ", "@),
        decreases list.len() - k,
    {
        proof {
            text::lemma_joined_step(parts, ", "@, k as int);
        }
        if k > 0 {
            out.append(", ");
        }
        out.append(quoted(list[k].as_str()).as_str());
        assert(out@ =~= start + text::joined(parts.take(k + 1), ", "@));
        k += 1;
    }
    assert(parts.take(k as int) =~= parts);
    out.append("]");
    assert(out@ =~= old(out)@ + list_text(circuit::texts(list@)));
}

/// The message of a failure.
pub open spec fn basis_text(failure: BasisFailure) -> Seq<char> {
    match failure {
        BasisFailure::UnknownSpec(name) => "Unknown published spec '"@ + name + "'"@,
        BasisFailure::UnreadablePattern(name) => "Failed to load published pattern '"@ + name
            + "' for interface-basis alignment fallback"@,
        BasisFailure::MissingConnector(left, left_phase, right, right_phase) => "Missing horizontal connector for "@
            + left + " east phase "@ + text::signed_decimal(left_phase) + " to "@ + right + " west phase "@
            + text::signed_decimal(right_phase),
        BasisFailure::Missing(scope, horizontal, vertical) => "Interface basis certificate is missing "@ + scope
            + " families: horizontal="@ + list_text(horizontal) + " vertical="@ + list_text(vertical),
        BasisFailure::FailedReport(label) => "Cannot build an interface basis entry from failed report '"@ + label
            + "'"@,
    }
}

impl BasisError {
    /// The message of the error.
    pub fn to_string(&self) -> (message: String)
        ensures
            message@ == basis_text(self@),
    {
        match self {
            BasisError::UnknownSpec { name } => {
                let mut out: String = "Unknown published spec '".to_owned();
                out.append(*name);
                out.append("'");
                out
            },
            BasisError::UnreadablePattern { name } => {
                let mut out: String = "Failed to load published pattern '".to_owned();
                out.append(*name);
                out.append("' for interface-basis alignment fallback");
                out
            },
            BasisError::MissingConnector { left, left_phase, right, right_phase } => {
                let mut out: String = "Missing horizontal connector for ".to_owned();
                out.append(*left);
                out.append(" east phase ");
                push_i64(&mut out, *left_phase as i64);
                out.append(" to ");
                out.append(*right);
                out.append(" west phase ");
                push_i64(&mut out, *right_phase as i64);
                out
            },
            BasisError::Missing { scope, horizontal, vertical } => {
                let mut out: String = "Interface basis certificate is missing ".to_owned();
                out.append(*scope);
                out.append(" families: horizontal=");
                push_list(&mut out, horizontal);
                out.append(" vertical=");
                push_list(&mut out, vertical);
                out
            },
            BasisError::FailedReport { label } => {
                let mut out: String = "Cannot build an interface basis entry from failed report '".to_owned();
                out.append(label.as_str());
                out.append("'");
                out
            },
        }
    }
}

/// The label of a family.
pub open spec fn across_label(names: Names) -> Seq<char> {
    names[0] + " --"@ + names[1] + "--> "@ + names[2]
}

/// The label of a family.
pub open spec fn down_label(names: Names) -> Seq<char> {
    names[0] + " / "@ + names[1]
}

/// The label of a family.
pub fn horizontal_family_label(family: &HorizontalInterfaceFamily) -> (label: String)
    ensures
        label@ == across_label(routing::horizontal_family_names(*family)),
{
    let mut out: String = family.left_spec_name.to_owned();
    out.append(" --");
    out.append(family.connector_spec_name);
    out.append("--> ");
    out.append(family.right_spec_name);
    out
}

/// The label of a family.
pub fn vertical_family_label(family: &VerticalInterfaceFamily) -> (label: String)
    ensures
        label@ == down_label(routing::vertical_family_names(*family)),
{
    let mut out: String = family.top_spec_name.to_owned();
    out.append(" / ");
    out.append(family.bottom_spec_name);
    out
}

/// The labels of families.
pub open spec fn across_labels(families: Seq<HorizontalInterfaceFamily>) -> Seq<Seq<char>> {
    Seq::new(families.len(), |i: int| across_label(routing::horizontal_family_names(families[i])))
}

/// The labels of families.
pub open spec fn down_labels(families: Seq<VerticalInterfaceFamily>) -> Seq<Seq<char>> {
    Seq::new(families.len(), |i: int| down_label(routing::vertical_family_names(families[i])))
}

/// The labels of entries.
pub open spec fn entry_labels(entries: Seq<InterfaceBasisEntry>) -> Seq<Seq<char>> {
    Seq::new(entries.len(), |i: int| entries[i].label@)
}

/// The required labels, among the first `k`, that are not there.
pub open spec fn missing_labels(required: Seq<Seq<char>>, have: Seq<Seq<char>>, k: nat) -> Seq<Seq<char>>
    decreases k,
{
    if k == 0 {
        Seq::empty()
    } else {
        let earlier = missing_labels(required, have, (k - 1) as nat);
        if have.contains(required[k - 1]) {
            earlier
        } else {
            earlier.push(required[k - 1])
        }
    }
}

fn holds_label(entries: &Vec<InterfaceBasisEntry>, label: &str) -> (found: bool)
    ensures
        found == entry_labels(entries@).contains(label@),
{
    let ghost labels = entry_labels(entries@);
    let mut k: usize = 0;
    while k < entries.len()
        invariant
            k <= entries@.len(),
            labels == entry_labels(entries@),
            forall|i: int| 0 <= i < k ==> #[trigger] labels[i] != label@,
        decreases entries.len() - k,
    {
        if same_text(entries[k].label.as_str(), label) {
            assert(labels[k as int] == label@);
            return true;
        }
        assert(labels[k as int] != label@);
        k += 1;
    }
    false
}

fn find_missing(required: Vec<String>, entries: &Vec<InterfaceBasisEntry>) -> (missing: Vec<String>)
    ensures
        circuit::texts(missing@) == missing_labels(
            circuit::texts(required@),
            entry_labels(entries@),
            required@.len(),
        ),
{
    let ghost all = circuit::texts(required@);
    let ghost have = entry_labels(entries@);
    let mut missing: Vec<String> = Vec::new();
    let mut k: usize = 0;
    assert(circuit::texts(missing@) =~= Seq::<Seq<char>>::empty());
    while k < required.len()
        invariant
            k <= required@.len(),
            all == circuit::texts(required@),
            have == entry_labels(entries@),
            circuit::texts(missing@) == missing_labels(all, have, k as nat),
        decreases required.len() - k,
    {
        assert(all[k as int] == required@[k as int]@);
        if !holds_label(entries, required[k].as_str()) {
            let ghost before = missing@;
            missing.push(required[k].clone());
            assert(circuit::texts(missing@) =~= circuit::texts(before).push(all[k as int]));
        }
        k += 1;
    }
    missing
}

/// Nothing is missing just where all required labels are there.
pub proof fn lemma_nothing_missing(required: Seq<Seq<char>>, have: Seq<Seq<char>>, k: nat)
    requires
        k <= required.len(),
    ensures
        missing_labels(required, have, k).len() == 0 <==> forall|i: int|
            0 <= i < k ==> have.contains(#[trigger] required[i]),
    decreases k,
{
    if k > 0 {
        lemma_nothing_missing(required, have, (k - 1) as nat);
        if missing_labels(required, have, k).len() == 0 {
            assert(have.contains(required[k - 1]));
        } else if have.contains(required[k - 1]) {
            let i = choose|i: int| 0 <= i < k - 1 && !have.contains(#[trigger] required[i]);
            assert(!have.contains(required[i]));
        } else {
            assert(!have.contains(required[k - 1]));
        }
    }
}

impl InterfaceBasisCertificate {
    /// The certificate covers the required families.
    pub open spec fn covers(&self, horizontal: Seq<Seq<char>>, vertical: Seq<Seq<char>>) -> bool {
        &&& forall|i: int| 0 <= i < horizontal.len() ==> entry_labels(self.horizontal@).contains(#[trigger] horizontal[i])
        &&& forall|i: int| 0 <= i < vertical.len() ==> entry_labels(self.vertical@).contains(#[trigger] vertical[i])
    }

    fn covers_labels(
        &self,
        required_horizontal: Vec<String>,
        required_vertical: Vec<String>,
        scope: &'static str,
    ) -> (result: Result<(), BasisError>)
        ensures
            self.is_cover_result(
                circuit::texts(required_horizontal@),
                circuit::texts(required_vertical@),
                scope@,
                result,
            ),
    {
        let ghost horizontal = circuit::texts(required_horizontal@);
        let ghost vertical = circuit::texts(required_vertical@);
        let missing_horizontal: Vec<String> = find_missing(required_horizontal, &self.horizontal);
        let missing_vertical: Vec<String> = find_missing(required_vertical, &self.vertical);
        proof {
            lemma_nothing_missing(horizontal, entry_labels(self.horizontal@), horizontal.len());
            lemma_nothing_missing(vertical, entry_labels(self.vertical@), vertical.len());
            assert(circuit::texts(missing_horizontal@).len() == missing_horizontal@.len());
            assert(circuit::texts(missing_vertical@).len() == missing_vertical@.len());
        }
        if missing_horizontal.len() == 0 && missing_vertical.len() == 0 {
            Ok(())
        } else {
            Err(
                BasisError::Missing {
                    scope,
                    horizontal: missing_horizontal,
                    vertical: missing_vertical,
                },
            )
        }
    }

    /// Whether a certificate covers the required families, and which it does not cover.
    pub open spec fn is_cover_result(
        &self,
        horizontal: Seq<Seq<char>>,
        vertical: Seq<Seq<char>>,
        scope: Seq<char>,
        result: Result<(), BasisError>,
    ) -> bool {
        match result {
            Ok(_) => self.covers(horizontal, vertical),
            Err(error) => !self.covers(horizontal, vertical) && error@ == BasisFailure::Missing(
                scope,
                missing_labels(horizontal, entry_labels(self.horizontal@), horizontal.len()),
                missing_labels(vertical, entry_labels(self.vertical@), vertical.len()),
            ),
        }
    }

    /// Whether the certificate covers the interfaces of a routing.
    pub fn covers_witness(&self, witness: &RoutingWitness) -> (result: Result<(), BasisError>)
        ensures
            self.is_cover_result(
                across_labels(witness.horizontal_families@),
                down_labels(witness.vertical_families@),
                "witness"@,
                result,
            ),
    {
        self.covers_labels(
            horizontal_labels(&witness.horizontal_families),
            vertical_labels(&witness.vertical_families),
            "witness",
        )
    }

    /// Whether the certificate covers the interfaces that routings can have.
    pub fn covers_router_basis(&self, basis: &RouterInterfaceBasis) -> (result: Result<(), BasisError>)
        ensures
            self.is_cover_result(
                across_labels(basis.horizontal@),
                down_labels(basis.vertical@),
                "router basis"@,
                result,
            ),
    {
        self.covers_labels(horizontal_labels(&basis.horizontal), vertical_labels(&basis.vertical), "router basis")
    }

    /// How many families the certificate covers.
    pub fn render_summary(&self) -> (summary: String)
        ensures
            summary@ == "interface_basis_certificate_valid=true horizontal_entries="@ + text::decimal(
                self.horizontal@.len(),
            ) + " vertical_entries="@ + text::decimal(self.vertical@.len()),
    {
        let mut out: String = "interface_basis_certificate_valid=true horizontal_entries=".to_owned();
        push_usize(&mut out, self.horizontal.len());
        out.append(" vertical_entries=");
        push_usize(&mut out, self.vertical.len());
        out
    }
}

fn horizontal_labels(families: &Vec<HorizontalInterfaceFamily>) -> (labels: Vec<String>)
    ensures
        circuit::texts(labels@) == across_labels(families@),
{
    let mut labels: Vec<String> = Vec::new();
    let mut k: usize = 0;
    while k < families.len()
        invariant
            k <= families@.len(),
            labels@.len() == k,
            forall|i: int| 0 <= i < k ==> (#[trigger] labels@[i])@ == across_labels(families@)[i],
        decreases families.len() - k,
    {
        labels.push(horizontal_family_label(&families[k]));
        k += 1;
    }
    assert(circuit::texts(labels@) =~= across_labels(families@));
    labels
}

fn vertical_labels(families: &Vec<VerticalInterfaceFamily>) -> (labels: Vec<String>)
    ensures
        circuit::texts(labels@) == down_labels(families@),
{
    let mut labels: Vec<String> = Vec::new();
    let mut k: usize = 0;
    while k < families.len()
        invariant
            k <= families@.len(),
            labels@.len() == k,
            forall|i: int| 0 <= i < k ==> (#[trigger] labels@[i])@ == down_labels(families@)[i],
        decreases families.len() - k,
    {
        labels.push(vertical_family_label(&families[k]));
        k += 1;
    }
    assert(circuit::texts(labels@) =~= down_labels(families@));
    labels
}

impl RouterInterfaceBasis {
    /// The summary.
    pub open spec fn summary(&self) -> Seq<char> {
        "router_interface_basis_finite=true horizontal_families="@ + text::decimal(self.horizontal@.len())
            + " vertical_families="@ + text::decimal(self.vertical@.len())
    }

    /// How many families there are.
    pub fn render_summary(&self) -> (summary: String)
        ensures
            summary@ == self.summary(),
    {
        let mut out: String = "router_interface_basis_finite=true horizontal_families=".to_owned();
        push_usize(&mut out, self.horizontal.len());
        out.append(" vertical_families=");
        push_usize(&mut out, self.vertical.len());
        out
    }

    /// The lines of the summary of families.
    pub open spec fn family_lines(&self) -> Seq<Seq<char>> {
        seq![
            self.summary(),
            "horizontal router basis families: "@ + text::decimal(self.horizontal@.len()),
        ] + Seq::new(self.horizontal@.len(), |i: int| "  "@ + across_labels(self.horizontal@)[i])
            + seq!["vertical router basis families: "@ + text::decimal(self.vertical@.len())] + Seq::new(
            self.vertical@.len(),
            |i: int| "  "@ + down_labels(self.vertical@)[i],
        )
    }

    /// The families, one per line.
    pub fn render_family_summary(&self) -> (summary: String)
        ensures
            summary@ == text::joined(self.family_lines(), "\n"@),
    {
        let ghost lines = self.family_lines();
        let h: usize = self.horizontal.len();
        let v: usize = self.vertical.len();
        let mut out: String = self.render_summary();
        proof {
            text::lemma_joined_step(lines, "\n"@, 0);
            text::lemma_joined_step(lines, "\n"@, 1);
        }
        out.append("\n");
        let ghost first = out@;
        out.append("horizontal router basis families: ");
        push_usize(&mut out, h);
        assert(out@ =~= first + lines[1]);
        let mut k: usize = 0;
        while k < h
            invariant
                k <= h,
                h == self.horizontal@.len(),
                lines == self.family_lines(),
                out@ == text::joined(lines.take(k + 2), "\n"@),
            decreases h - k,
        {
            proof {
                text::lemma_joined_step(lines, "\n"@, k + 2);
            }
            out.append("\n");
            let ghost start = out@;
            out.append("  ");
            out.append(horizontal_family_label(&self.horizontal[k]).as_str());
            assert(out@ =~= start + lines[k + 2]);
            k += 1;
        }
        proof {
            text::lemma_joined_step(lines, "\n"@, h + 2);
        }
        out.append("\n");
        let ghost middle = out@;
        out.append("vertical router basis families: ");
        push_usize(&mut out, v);
        assert(out@ =~= middle + lines[h + 2]);
        let mut m: usize = 0;
        while m < v
            invariant
                m <= v,
                h == self.horizontal@.len(),
                v == self.vertical@.len(),
                lines == self.family_lines(),
                out@ == text::joined(lines.take(h + m + 3), "\n"@),
            decreases v - m,
        {
            proof {
                text::lemma_joined_step(lines, "\n"@, h + m + 3);
            }
            out.append("\n");
            let ghost start = out@;
            out.append("  ");
            out.append(vertical_family_label(&self.vertical[m]).as_str());
            assert(out@ =~= start + lines[h + m + 3]);
            m += 1;
        }
        assert(lines.take(h + v + 3) =~= lines);
        out
    }
}

/// The label contains the filter, where there is one.
pub open spec fn passes(label: Seq<char>, filter: Option<Seq<char>>) -> bool {
    match filter {
        None => true,
        Some(part) => holds_part(label, part),
    }
}

/// The label contains the part.
pub open spec fn holds_part(label: Seq<char>, part: Seq<char>) -> bool {
    exists|i: int| #[trigger] stands_at(label, part, i)
}

/// The label continues with the part from a position on.
pub open spec fn stands_at(label: Seq<char>, part: Seq<char>, i: int) -> bool {
    0 <= i && i + part.len() <= label.len() && label.subrange(i, i + part.len()) == part
}

/// A filter, as a text.
pub open spec fn filter_text(filter: Option<&str>) -> Option<Seq<char>> {
    match filter {
        None => None,
        Some(part) => Some(part@),
    }
}

/// Whether the label contains the filter, where there is one.
pub(crate) fn family_matches_filter(label: &str, filter: Option<&str>) -> (result: bool)
    ensures
        result == passes(label@, filter_text(filter)),
{
    let part: Vec<char> = match filter {
        None => {
            return true;
        },
        Some(part) => chars_of(part),
    };
    let whole: Vec<char> = chars_of(label);
    if part.len() > whole.len() {
        return false;
    }
    let last: usize = whole.len() - part.len();
    let mut i: usize = 0;
    while i < last
        invariant
            i <= last,
            last + part@.len() == whole@.len(),
            whole@ == label@,
            filter_text(filter) == Some(part@),
            forall|j: int| 0 <= j < i ==> !#[trigger] stands_at(label@, part@, j),
        decreases last - i,
    {
        if matches_at(&whole, &part, i) {
            assert(stands_at(label@, part@, i as int));
            return true;
        }
        i += 1;
    }
    let found: bool = matches_at(&whole, &part, last);
    proof {
        assert(found == stands_at(label@, part@, last as int));
        assert forall|j: int| !found implies !#[trigger] stands_at(label@, part@, j) by {}
    }
    found
}

fn matches_at(whole: &Vec<char>, part: &Vec<char>, i: usize) -> (result: bool)
    requires
        i + part@.len() <= whole@.len(),
    ensures
        result == (whole@.subrange(i as int, i + part@.len()) == part@),
{
    let ghost piece = whole@.subrange(i as int, i + part@.len());
    let n: usize = whole.len();
    let mut k: usize = 0;
    while k < part.len()
        invariant
            k <= part@.len(),
            n == whole@.len(),
            i + part@.len() <= n,
            piece == whole@.subrange(i as int, i + part@.len()),
            forall|m: int| 0 <= m < k ==> #[trigger] piece[m] == part@[m],
        decreases part.len() - k,
    {
        assert(piece[k as int] == whole@[i + k]);
        if whole[i + k] != part[k] {
            return false;
        }
        k += 1;
    }
    assert(piece =~= part@);
    true
}

/// The families, among the first `k`, that pass a filter.
pub open spec fn filtered_across(
    families: Seq<HorizontalInterfaceFamily>,
    filter: Option<Seq<char>>,
    k: nat,
) -> Seq<HorizontalInterfaceFamily>
    decreases k,
{
    if k == 0 {
        Seq::empty()
    } else {
        let earlier = filtered_across(families, filter, (k - 1) as nat);
        if passes(across_label(routing::horizontal_family_names(families[k - 1])), filter) {
            earlier.push(families[k - 1])
        } else {
            earlier
        }
    }
}

/// The families, among the first `k`, that pass a filter.
pub open spec fn filtered_down(
    families: Seq<VerticalInterfaceFamily>,
    filter: Option<Seq<char>>,
    k: nat,
) -> Seq<VerticalInterfaceFamily>
    decreases k,
{
    if k == 0 {
        Seq::empty()
    } else {
        let earlier = filtered_down(families, filter, (k - 1) as nat);
        if passes(down_label(routing::vertical_family_names(families[k - 1])), filter) {
            earlier.push(families[k - 1])
        } else {
            earlier
        }
    }
}

/// The families of a routing that pass a filter.
pub fn filtered_horizontal_families(witness: &RoutingWitness, filter: Option<&str>) -> (families: Vec<
    HorizontalInterfaceFamily,
>)
    ensures
        families@ == filtered_across(
            witness.horizontal_families@,
            filter_text(filter),
            witness.horizontal_families@.len(),
        ),
{
    let mut families: Vec<HorizontalInterfaceFamily> = Vec::new();
    let mut k: usize = 0;
    while k < witness.horizontal_families.len()
        invariant
            k <= witness.horizontal_families@.len(),
            families@ == filtered_across(witness.horizontal_families@, filter_text(filter), k as nat),
        decreases witness.horizontal_families.len() - k,
    {
        let family: HorizontalInterfaceFamily = witness.horizontal_families[k];
        if family_matches_filter(horizontal_family_label(&family).as_str(), filter) {
            families.push(family);
        }
        k += 1;
    }
    families
}

/// The families of a routing that pass a filter.
pub fn filtered_vertical_families(witness: &RoutingWitness, filter: Option<&str>) -> (families: Vec<
    VerticalInterfaceFamily,
>)
    ensures
        families@ == filtered_down(witness.vertical_families@, filter_text(filter), witness.vertical_families@.len()),
{
    let mut families: Vec<VerticalInterfaceFamily> = Vec::new();
    let mut k: usize = 0;
    while k < witness.vertical_families.len()
        invariant
            k <= witness.vertical_families@.len(),
            families@ == filtered_down(witness.vertical_families@, filter_text(filter), k as nat),
        decreases witness.vertical_families.len() - k,
    {
        let family: VerticalInterfaceFamily = witness.vertical_families[k];
        if family_matches_filter(vertical_family_label(&family).as_str(), filter) {
            families.push(family);
        }
        k += 1;
    }
    families
}

/// A pattern with the phases of its wires.
#[derive(Debug, Clone, Copy)]
pub struct InterfaceProfile {
    pub spec_name: &'static str,
    pub phases: Alignment,
}

impl View for InterfaceProfile {
    type V = (Seq<char>, Alignment);

    open spec fn view(&self) -> (Seq<char>, Alignment) {
        (self.spec_name@, self.phases)
    }
}

/// Profiles, over texts.
pub open spec fn profile_models(profiles: Seq<InterfaceProfile>) -> Seq<(Seq<char>, Alignment)> {
    Seq::new(profiles.len(), |i: int| profiles[i]@)
}

/// The tiles of paths.
pub open spec fn routing_names() -> Names {
    seq![
        "horizontal wire tile"@,
        "vertical wire tile"@,
        "NE turn tile"@,
        "NW turn tile"@,
        "SW turn tile"@,
        "SE turn tile"@,
        "crossing tile"@,
    ]
}

/// The patterns of instances.
pub open spec fn macro_names() -> Names {
    seq!["NOT gate tile"@, "OR gate tile"@, "splitter tile"@, "enforcer gadget"@]
}

/// The profile of a pattern.
pub open spec fn profile_of(files: &PatternFiles, name: Seq<char>) -> Result<(Seq<char>, Alignment), BasisFailure> {
    match routing::stated_alignment(files, name) {
        Ok(align) => Ok((name, align)),
        Err(RoutingFailure::UnknownSpec(_)) => Err(BasisFailure::UnknownSpec(name)),
        Err(_) => Err(BasisFailure::UnreadablePattern(name)),
    }
}

/// The profiles of the first `k` patterns.
pub open spec fn profiles_of(files: &PatternFiles, names: Names, k: nat) -> Result<
    Seq<(Seq<char>, Alignment)>,
    BasisFailure,
>
    decreases k,
{
    if k == 0 {
        Ok(Seq::empty())
    } else {
        match profiles_of(files, names, (k - 1) as nat) {
            Err(failure) => Err(failure),
            Ok(earlier) => match profile_of(files, names[k - 1]) {
                Err(failure) => Err(failure),
                Ok(profile) => Ok(earlier.push(profile)),
            },
        }
    }
}

/// Two patterns that can stand side by side, in a list of one.
pub open spec fn side_by_side(
    left: (Seq<char>, Alignment),
    right: (Seq<char>, Alignment),
) -> Seq<((Seq<char>, i8), (Seq<char>, i8))> {
    match (left.1.0, right.1.2) {
        (Some(west), Some(east)) => seq![((left.0, west), (right.0, east))],
        _ => Seq::empty(),
    }
}

/// Two patterns that can stand one above the other, in a list of one: horizontal lanes lie
/// three rows apart, so that no two crossings do.
pub open spec fn stacked(top: (Seq<char>, Alignment), bottom: (Seq<char>, Alignment)) -> Seq<Names> {
    if top.1.3 is Some && bottom.1.1 is Some && !(top.0 == "crossing tile"@ && bottom.0 == "crossing tile"@) {
        seq![seq![top.0, bottom.0]]
    } else {
        Seq::empty()
    }
}

/// The pairs that one of the first `k` patterns makes, on the left, with the given ones.
pub open spec fn pairs_with(
    left: (Seq<char>, Alignment),
    rights: Seq<(Seq<char>, Alignment)>,
    k: nat,
) -> Seq<((Seq<char>, i8), (Seq<char>, i8))>
    decreases k,
{
    if k == 0 {
        Seq::empty()
    } else {
        pairs_with(left, rights, (k - 1) as nat) + side_by_side(left, rights[k - 1])
    }
}

/// The pairs of patterns side by side, with one of the first `k` on the left.
pub open spec fn all_pairs(
    lefts: Seq<(Seq<char>, Alignment)>,
    rights: Seq<(Seq<char>, Alignment)>,
    k: nat,
) -> Seq<((Seq<char>, i8), (Seq<char>, i8))>
    decreases k,
{
    if k == 0 {
        Seq::empty()
    } else {
        all_pairs(lefts, rights, (k - 1) as nat) + pairs_with(lefts[k - 1], rights, rights.len())
    }
}

/// The stacks that a pattern makes, on the top, with the first `k` given ones.
pub open spec fn stacks_with(
    top: (Seq<char>, Alignment),
    bottoms: Seq<(Seq<char>, Alignment)>,
    k: nat,
) -> Seq<Names>
    decreases k,
{
    if k == 0 {
        Seq::empty()
    } else {
        stacks_with(top, bottoms, (k - 1) as nat) + stacked(top, bottoms[k - 1])
    }
}

/// The stacks of patterns, with one of the first `k` on the top.
pub open spec fn all_stacks(
    tops: Seq<(Seq<char>, Alignment)>,
    bottoms: Seq<(Seq<char>, Alignment)>,
    k: nat,
) -> Seq<Names>
    decreases k,
{
    if k == 0 {
        Seq::empty()
    } else {
        all_stacks(tops, bottoms, (k - 1) as nat) + stacks_with(tops[k - 1], bottoms, bottoms.len())
    }
}

/// The pairs that routings can have: tiles with tiles, and instances with straight wires.
pub open spec fn basis_pairs(
    tiles: Seq<(Seq<char>, Alignment)>,
    macros: Seq<(Seq<char>, Alignment)>,
    wire: (Seq<char>, Alignment),
) -> Seq<((Seq<char>, i8), (Seq<char>, i8))> {
    all_pairs(tiles, tiles, tiles.len()) + all_pairs(macros, seq![wire], macros.len()) + all_pairs(
        seq![wire],
        macros,
        1,
    )
}

/// The stacks that routings can have: tiles with tiles, and instances with straight wires.
pub open spec fn basis_stacks(
    tiles: Seq<(Seq<char>, Alignment)>,
    macros: Seq<(Seq<char>, Alignment)>,
    wire: (Seq<char>, Alignment),
) -> Seq<Names> {
    all_stacks(tiles, tiles, tiles.len()) + all_stacks(macros, seq![wire], macros.len()) + all_stacks(
        seq![wire],
        macros,
        1,
    )
}

/// The first `k` pairs, with their connectors.
pub open spec fn connected_pairs(pairs: Seq<((Seq<char>, i8), (Seq<char>, i8))>, k: nat) -> Result<
    Seq<Names>,
    BasisFailure,
>
    decreases k,
{
    if k == 0 {
        Ok(Seq::empty())
    } else {
        match connected_pairs(pairs, (k - 1) as nat) {
            Err(failure) => Err(failure),
            Ok(earlier) => {
                let (left, right) = pairs[k - 1];
                match routing::connector_for(left.1, right.1) {
                    None => Err(
                        BasisFailure::MissingConnector(left.0, left.1 as int, right.0, right.1 as int),
                    ),
                    Some(connector) => Ok(earlier.push(seq![left.0, connector, right.0])),
                }
            },
        }
    }
}

/// The families of a list of names, each once, in the order of their names.
pub open spec fn lists_across_once(families: Seq<HorizontalInterfaceFamily>, list: Seq<Names>) -> bool {
    &&& forall|i: int, j: int| #![trigger families[i], families[j]]
        0 <= i < j < families.len() ==> tally::names_less(
            routing::horizontal_family_names(families[i]),
            routing::horizontal_family_names(families[j]),
        )
    &&& forall|i: int|
        0 <= i < families.len() ==> (#[trigger] families[i]).count == 1 && list.contains(
            routing::horizontal_family_names(families[i]),
        )
    &&& forall|key: Names| #[trigger]
        list.contains(key) ==> exists|i: int|
            0 <= i < families.len() && routing::horizontal_family_names(#[trigger] families[i]) == key
}

/// The families of a list of names, each once, in the order of their names.
pub open spec fn lists_down_once(families: Seq<VerticalInterfaceFamily>, list: Seq<Names>) -> bool {
    &&& forall|i: int, j: int| #![trigger families[i], families[j]]
        0 <= i < j < families.len() ==> tally::names_less(
            routing::vertical_family_names(families[i]),
            routing::vertical_family_names(families[j]),
        )
    &&& forall|i: int|
        0 <= i < families.len() ==> (#[trigger] families[i]).count == 1 && list.contains(
            routing::vertical_family_names(families[i]),
        )
    &&& forall|key: Names| #[trigger]
        list.contains(key) ==> exists|i: int|
            0 <= i < families.len() && routing::vertical_family_names(#[trigger] families[i]) == key
}

/// The basis of interfaces, or why there is none.
pub open spec fn is_basis_result(files: &PatternFiles, result: Result<RouterInterfaceBasis, BasisError>) -> bool {
    match profiles_of(files, routing_names(), routing_names().len()) {
        Err(failure) => result matches Err(error) && error@ == failure,
        Ok(tiles) => match profiles_of(files, macro_names(), macro_names().len()) {
            Err(failure) => result matches Err(error) && error@ == failure,
            Ok(macros) => {
                let pairs = basis_pairs(tiles, macros, tiles[0]);
                match connected_pairs(pairs, pairs.len()) {
                    Err(failure) => result matches Err(error) && error@ == failure,
                    Ok(across) => result matches Ok(basis) && lists_across_once(basis.horizontal@, across)
                        && lists_down_once(basis.vertical@, basis_stacks(tiles, macros, tiles[1])),
                }
            },
        },
    }
}

fn interface_profile(files: &PatternFiles, spec_name: &'static str) -> (result: Result<InterfaceProfile, BasisError>)
    requires
        files.wf(),
    ensures
        match profile_of(files, spec_name@) {
            Ok(profile) => result matches Ok(found) && found@ == profile,
            Err(failure) => result matches Err(error) && error@ == failure,
        },
{
    match alignment_for_spec(files, spec_name) {
        Ok(phases) => Ok(InterfaceProfile { spec_name, phases }),
        Err(RoutingError::UnknownSpec { .. }) => Err(BasisError::UnknownSpec { name: spec_name }),
        Err(_) => Err(BasisError::UnreadablePattern { name: spec_name }),
    }
}

proof fn lemma_profiles_fail(files: &PatternFiles, names: Names, j: nat, k: nat)
    requires
        j <= k,
        profiles_of(files, names, j) is Err,
    ensures
        profiles_of(files, names, k) == profiles_of(files, names, j),
    decreases k,
{
    if j < k {
        lemma_profiles_fail(files, names, j, (k - 1) as nat);
    }
}

fn interface_profiles(files: &PatternFiles, names: &Vec<&'static str>) -> (result: Result<
    Vec<InterfaceProfile>,
    BasisError,
>)
    requires
        files.wf(),
    ensures
        match profiles_of(files, tally::names_of(names@), names@.len()) {
            Ok(profiles) => result matches Ok(found) && profile_models(found@) == profiles,
            Err(failure) => result matches Err(error) && error@ == failure,
        },
{
    let ghost texts = tally::names_of(names@);
    let mut profiles: Vec<InterfaceProfile> = Vec::new();
    let mut k: usize = 0;
    assert(profile_models(profiles@) =~= Seq::<(Seq<char>, Alignment)>::empty());
    while k < names.len()
        invariant
            k <= names@.len(),
            files.wf(),
            texts == tally::names_of(names@),
            profiles_of(files, texts, k as nat) == Ok::<Seq<(Seq<char>, Alignment)>, BasisFailure>(
                profile_models(profiles@),
            ),
        decreases names.len() - k,
    {
        assert(texts[k as int] == names@[k as int]@);
        match interface_profile(files, names[k]) {
            Ok(profile) => {
                let ghost before = profiles@;
                profiles.push(profile);
                assert(profile_models(profiles@) =~= profile_models(before).push(profile@));
            },
            Err(error) => {
                proof {
                    lemma_profiles_fail(files, texts, (k + 1) as nat, texts.len());
                }
                return Err(error);
            },
        }
        k += 1;
    }
    Ok(profiles)
}

fn routing_interface_profiles(files: &PatternFiles) -> (result: Result<Vec<InterfaceProfile>, BasisError>)
    requires
        files.wf(),
    ensures
        match profiles_of(files, routing_names(), routing_names().len()) {
            Ok(profiles) => result matches Ok(found) && profile_models(found@) == profiles,
            Err(failure) => result matches Err(error) && error@ == failure,
        },
{
    let mut names: Vec<&'static str> = Vec::new();
    names.push("horizontal wire tile");
    names.push("vertical wire tile");
    names.push("NE turn tile");
    names.push("NW turn tile");
    names.push("SW turn tile");
    names.push("SE turn tile");
    names.push("crossing tile");
    assert(tally::names_of(names@) =~= routing_names());
    interface_profiles(files, &names)
}

fn macro_interface_profiles(files: &PatternFiles) -> (result: Result<Vec<InterfaceProfile>, BasisError>)
    requires
        files.wf(),
    ensures
        match profiles_of(files, macro_names(), macro_names().len()) {
            Ok(profiles) => result matches Ok(found) && profile_models(found@) == profiles,
            Err(failure) => result matches Err(error) && error@ == failure,
        },
{
    let mut names: Vec<&'static str> = Vec::new();
    names.push("NOT gate tile");
    names.push("OR gate tile");
    names.push("splitter tile");
    names.push("enforcer gadget");
    assert(tally::names_of(names@) =~= macro_names());
    interface_profiles(files, &names)
}

/// Two patterns side by side, with the phases that their connector joins.
#[derive(Debug, Clone, Copy)]
struct PhasePair {
    left: &'static str,
    west: i8,
    right: &'static str,
    east: i8,
}

spec fn pair_models(pairs: Seq<PhasePair>) -> Seq<((Seq<char>, i8), (Seq<char>, i8))> {
    Seq::new(pairs.len(), |i: int| ((pairs[i].left@, pairs[i].west), (pairs[i].right@, pairs[i].east)))
}

fn push_pairs(pairs: &mut Vec<PhasePair>, lefts: &Vec<InterfaceProfile>, rights: &Vec<InterfaceProfile>)
    ensures
        pair_models(final(pairs)@) == pair_models(old(pairs)@) + all_pairs(
            profile_models(lefts@),
            profile_models(rights@),
            lefts@.len(),
        ),
{
    let ghost start = pair_models(pairs@);
    let ghost ls = profile_models(lefts@);
    let ghost rs = profile_models(rights@);
    let mut k: usize = 0;
    assert(pair_models(pairs@) =~= start + all_pairs(ls, rs, 0));
    while k < lefts.len()
        invariant
            k <= lefts@.len(),
            ls == profile_models(lefts@),
            rs == profile_models(rights@),
            pair_models(pairs@) == start + all_pairs(ls, rs, k as nat),
        decreases lefts.len() - k,
    {
        let ghost before = pair_models(pairs@);
        let mut m: usize = 0;
        assert(pair_models(pairs@) =~= before + pairs_with(ls[k as int], rs, 0));
        while m < rights.len()
            invariant
                m <= rights@.len(),
                k < lefts@.len(),
                ls == profile_models(lefts@),
                rs == profile_models(rights@),
                pair_models(pairs@) == before + pairs_with(ls[k as int], rs, m as nat),
            decreases rights.len() - m,
        {
            let left: InterfaceProfile = lefts[k];
            let right: InterfaceProfile = rights[m];
            assert(ls[k as int] == left@ && rs[m as int] == right@);
            let ghost inner = pairs@;
            if let (Some(west), Some(east)) = (left.phases.0, right.phases.2) {
                pairs.push(PhasePair { left: left.spec_name, west, right: right.spec_name, east });
            }
            assert(pair_models(pairs@) =~= pair_models(inner) + side_by_side(ls[k as int], rs[m as int]));
            assert(pair_models(pairs@) =~= before + pairs_with(ls[k as int], rs, (m + 1) as nat));
            m += 1;
        }
        assert(pair_models(pairs@) =~= start + all_pairs(ls, rs, (k + 1) as nat));
        k += 1;
    }
}

/// Lists of names, as texts.
spec fn stack_models(stacks: Seq<Vec<&'static str>>) -> Seq<Names> {
    Seq::new(stacks.len(), |i: int| tally::names_of(stacks[i]@))
}

fn push_stacks(stacks: &mut Vec<Vec<&'static str>>, tops: &Vec<InterfaceProfile>, bottoms: &Vec<InterfaceProfile>)
    ensures
        stack_models(final(stacks)@) == stack_models(old(stacks)@) + all_stacks(
            profile_models(tops@),
            profile_models(bottoms@),
            tops@.len(),
        ),
{
    let ghost start = stack_models(stacks@);
    let ghost ts = profile_models(tops@);
    let ghost bs = profile_models(bottoms@);
    let mut k: usize = 0;
    assert(stack_models(stacks@) =~= start + all_stacks(ts, bs, 0));
    while k < tops.len()
        invariant
            k <= tops@.len(),
            ts == profile_models(tops@),
            bs == profile_models(bottoms@),
            stack_models(stacks@) == start + all_stacks(ts, bs, k as nat),
        decreases tops.len() - k,
    {
        let ghost before = stack_models(stacks@);
        let mut m: usize = 0;
        assert(stack_models(stacks@) =~= before + stacks_with(ts[k as int], bs, 0));
        while m < bottoms.len()
            invariant
                m <= bottoms@.len(),
                k < tops@.len(),
                ts == profile_models(tops@),
                bs == profile_models(bottoms@),
                stack_models(stacks@) == before + stacks_with(ts[k as int], bs, m as nat),
            decreases bottoms.len() - m,
        {
            let top: InterfaceProfile = tops[k];
            let bottom: InterfaceProfile = bottoms[m];
            assert(ts[k as int] == top@ && bs[m as int] == bottom@);
            let ghost inner = stacks@;
            if top.phases.3.is_some() && bottom.phases.1.is_some() && !(same_text(top.spec_name, "crossing tile")
                && same_text(bottom.spec_name, "crossing tile")) {
                let mut names: Vec<&'static str> = Vec::new();
                names.push(top.spec_name);
                names.push(bottom.spec_name);
                assert(tally::names_of(names@) =~= seq![top.spec_name@, bottom.spec_name@]);
                stacks.push(names);
            }
            assert(stack_models(stacks@) =~= stack_models(inner) + stacked(ts[k as int], bs[m as int]));
            assert(stack_models(stacks@) =~= before + stacks_with(ts[k as int], bs, (m + 1) as nat));
            m += 1;
        }
        assert(stack_models(stacks@) =~= start + all_stacks(ts, bs, (k + 1) as nat));
        k += 1;
    }
}

proof fn lemma_connected_fails(pairs: Seq<((Seq<char>, i8), (Seq<char>, i8))>, j: nat, k: nat)
    requires
        j <= k,
        connected_pairs(pairs, j) is Err,
    ensures
        connected_pairs(pairs, k) == connected_pairs(pairs, j),
    decreases k,
{
    if j < k {
        lemma_connected_fails(pairs, j, (k - 1) as nat);
    }
}

fn connect_pairs(pairs: &Vec<PhasePair>) -> (result: Result<Vec<Vec<&'static str>>, BasisError>)
    ensures
        match connected_pairs(pair_models(pairs@), pairs@.len()) {
            Ok(list) => result matches Ok(found) && stack_models(found@) == list,
            Err(failure) => result matches Err(error) && error@ == failure,
        },
{
    let ghost models = pair_models(pairs@);
    let mut list: Vec<Vec<&'static str>> = Vec::new();
    let mut k: usize = 0;
    assert(stack_models(list@) =~= Seq::<Names>::empty());
    while k < pairs.len()
        invariant
            k <= pairs@.len(),
            models == pair_models(pairs@),
            connected_pairs(models, k as nat) == Ok::<Seq<Names>, BasisFailure>(stack_models(list@)),
        decreases pairs.len() - k,
    {
        let pair: PhasePair = pairs[k];
        assert(models[k as int] == ((pair.left@, pair.west), (pair.right@, pair.east)));
        match connector_joining(pair.west, pair.east) {
            Some(connector) => {
                let mut names: Vec<&'static str> = Vec::new();
                names.push(pair.left);
                names.push(connector);
                names.push(pair.right);
                assert(tally::names_of(names@) =~= seq![pair.left@, connector@, pair.right@]);
                let ghost before = list@;
                list.push(names);
                assert(stack_models(list@) =~= stack_models(before).push(tally::names_of(names@)));
            },
            None => {
                proof {
                    lemma_connected_fails(models, (k + 1) as nat, models.len());
                }
                return Err(
                    BasisError::MissingConnector {
                        left: pair.left,
                        left_phase: pair.west,
                        right: pair.right,
                        right_phase: pair.east,
                    },
                );
            },
        }
        k += 1;
    }
    Ok(list)
}

/// The lists of names that occur, each once, in order.
fn distinct_names(list: Vec<Vec<&'static str>>, width: usize) -> (rows: Vec<Tally>)
    requires
        forall|i: int| 0 <= i < list@.len() ==> (#[trigger] list@[i])@.len() == width,
    ensures
        tally::is_tally(rows@, stack_models(list@)),
        forall|i: int| 0 <= i < rows@.len() ==> (#[trigger] rows@[i]).names@.len() == width,
{
    let ghost all = stack_models(list@);
    let mut rest: Vec<Vec<&'static str>> = list;
    let n: usize = rest.len();
    let mut rows: Vec<Tally> = Vec::new();
    let mut k: usize = 0;
    assert(tally::is_tally(rows@, all.take(0)));
    while k < n
        invariant
            k <= n,
            n == rest@.len(),
            n == all.len(),
            forall|i: int| 0 <= i < n ==> (#[trigger] all[i]).len() == width,
            forall|i: int| k <= i < n ==> tally::names_of((#[trigger] rest@[i])@) == all[i],
            tally::is_tally(rows@, all.take(k as int)),
        decreases n - k,
    {
        let mut names: Vec<&'static str> = Vec::new();
        std::mem::swap(&mut names, &mut rest[k]);
        assert(tally::names_of(names@) == all[k as int]);
        add_names(&mut rows, names, Ghost(all.take(k as int)));
        assert(all.take(k + 1) =~= all.take(k as int).push(all[k as int]));
        k += 1;
    }
    assert(all.take(k as int) =~= all);
    proof {
        routing::lemma_tally_lengths(rows@, all, width as nat);
    }
    rows
}

fn horizontal_from(rows: Vec<Tally>, list: Ghost<Seq<Names>>) -> (families: Vec<HorizontalInterfaceFamily>)
    requires
        tally::is_tally(rows@, list@),
        forall|i: int| 0 <= i < rows@.len() ==> (#[trigger] rows@[i]).names@.len() == 3,
    ensures
        lists_across_once(families@, list@),
{
    let mut families: Vec<HorizontalInterfaceFamily> = Vec::new();
    let mut m: usize = 0;
    while m < rows.len()
        invariant
            m <= rows@.len(),
            families@.len() == m,
            forall|i: int| 0 <= i < rows@.len() ==> (#[trigger] rows@[i]).names@.len() == 3,
            forall|i: int|
                0 <= i < m ==> routing::horizontal_family_names(#[trigger] families@[i]) == tally::names_of(rows@[i].names@)
                    && families@[i].count == 1,
        decreases rows.len() - m,
    {
        let row: &Tally = &rows[m];
        families.push(
            HorizontalInterfaceFamily {
                left_spec_name: row.names[0],
                connector_spec_name: row.names[1],
                right_spec_name: row.names[2],
                count: 1,
            },
        );
        assert(routing::horizontal_family_names(families@[m as int]) =~= tally::names_of(rows@[m as int].names@));
        m += 1;
    }
    proof {
        assert forall|i: int, j: int| #![trigger families@[i], families@[j]] 0 <= i < j < families@.len() implies tally::names_less(
            routing::horizontal_family_names(families@[i]),
            routing::horizontal_family_names(families@[j]),
        ) by {
            assert(tally::names_less(tally::names_of(rows@[i].names@), tally::names_of(rows@[j].names@)));
        }
        assert forall|i: int| 0 <= i < families@.len() implies (#[trigger] families@[i]).count == 1 && list@.contains(
            routing::horizontal_family_names(families@[i]),
        ) by {
            assert(rows@[i].count > 0);
            tally::lemma_occurs(list@, tally::names_of(rows@[i].names@));
        }
        assert forall|key: Names| #[trigger] list@.contains(key) implies exists|i: int|
            0 <= i < families@.len() && routing::horizontal_family_names(#[trigger] families@[i]) == key by {
            let i = choose|i: int| 0 <= i < rows@.len() && tally::names_of((#[trigger] rows@[i]).names@) == key;
            assert(routing::horizontal_family_names(families@[i]) == key);
        }
    }
    families
}

fn vertical_from(rows: Vec<Tally>, list: Ghost<Seq<Names>>) -> (families: Vec<VerticalInterfaceFamily>)
    requires
        tally::is_tally(rows@, list@),
        forall|i: int| 0 <= i < rows@.len() ==> (#[trigger] rows@[i]).names@.len() == 2,
    ensures
        lists_down_once(families@, list@),
{
    let mut families: Vec<VerticalInterfaceFamily> = Vec::new();
    let mut m: usize = 0;
    while m < rows.len()
        invariant
            m <= rows@.len(),
            families@.len() == m,
            forall|i: int| 0 <= i < rows@.len() ==> (#[trigger] rows@[i]).names@.len() == 2,
            forall|i: int|
                0 <= i < m ==> routing::vertical_family_names(#[trigger] families@[i]) == tally::names_of(rows@[i].names@)
                    && families@[i].count == 1,
        decreases rows.len() - m,
    {
        let row: &Tally = &rows[m];
        families.push(
            VerticalInterfaceFamily {
                top_spec_name: row.names[0],
                bottom_spec_name: row.names[1],
                count: 1,
            },
        );
        assert(routing::vertical_family_names(families@[m as int]) =~= tally::names_of(rows@[m as int].names@));
        m += 1;
    }
    proof {
        assert forall|i: int, j: int| #![trigger families@[i], families@[j]] 0 <= i < j < families@.len() implies tally::names_less(
            routing::vertical_family_names(families@[i]),
            routing::vertical_family_names(families@[j]),
        ) by {
            assert(tally::names_less(tally::names_of(rows@[i].names@), tally::names_of(rows@[j].names@)));
        }
        assert forall|i: int| 0 <= i < families@.len() implies (#[trigger] families@[i]).count == 1 && list@.contains(
            routing::vertical_family_names(families@[i]),
        ) by {
            assert(rows@[i].count > 0);
            tally::lemma_occurs(list@, tally::names_of(rows@[i].names@));
        }
        assert forall|key: Names| #[trigger] list@.contains(key) implies exists|i: int|
            0 <= i < families@.len() && routing::vertical_family_names(#[trigger] families@[i]) == key by {
            let i = choose|i: int| 0 <= i < rows@.len() && tally::names_of((#[trigger] rows@[i]).names@) == key;
            assert(routing::vertical_family_names(families@[i]) == key);
        }
    }
    families
}

/// Every stack has two names, and every connected pair three.
proof fn lemma_widths(tiles: Seq<(Seq<char>, Alignment)>, macros: Seq<(Seq<char>, Alignment)>, k: nat)
    requires
        k <= tiles.len(),
    ensures
        forall|i: int|
            0 <= i < all_stacks(tiles, macros, k).len() ==> (#[trigger] all_stacks(tiles, macros, k)[i]).len() == 2,
    decreases k,
{
    if k > 0 {
        lemma_widths(tiles, macros, (k - 1) as nat);
        lemma_stack_widths(tiles[k - 1], macros, macros.len());
        let earlier = all_stacks(tiles, macros, (k - 1) as nat);
        let more = stacks_with(tiles[k - 1], macros, macros.len());
        let all = all_stacks(tiles, macros, k);
        assert forall|i: int| 0 <= i < all.len() implies (#[trigger] all[i]).len() == 2 by {
            if i < earlier.len() {
                assert(all[i] == earlier[i]);
            } else {
                assert(all[i] == more[i - earlier.len()]);
            }
        }
    }
}

proof fn lemma_stack_widths(top: (Seq<char>, Alignment), bottoms: Seq<(Seq<char>, Alignment)>, k: nat)
    requires
        k <= bottoms.len(),
    ensures
        forall|i: int|
            0 <= i < stacks_with(top, bottoms, k).len() ==> (#[trigger] stacks_with(top, bottoms, k)[i]).len() == 2,
    decreases k,
{
    if k > 0 {
        lemma_stack_widths(top, bottoms, (k - 1) as nat);
        let earlier = stacks_with(top, bottoms, (k - 1) as nat);
        let all = stacks_with(top, bottoms, k);
        assert forall|i: int| 0 <= i < all.len() implies (#[trigger] all[i]).len() == 2 by {
            if i < earlier.len() {
                assert(all[i] == earlier[i]);
            }
        }
    }
}

proof fn lemma_pair_widths(pairs: Seq<((Seq<char>, i8), (Seq<char>, i8))>, k: nat)
    requires
        k <= pairs.len(),
    ensures
        connected_pairs(pairs, k) matches Ok(list) ==> forall|i: int| 0 <= i < list.len() ==> (#[trigger] list[i]).len() == 3,
    decreases k,
{
    if k > 0 {
        lemma_pair_widths(pairs, (k - 1) as nat);
    }
}

/// The families of interfaces that routings can have: any two tiles whose wires meet, and
/// any instance with a straight wire.
pub fn enumerate_router_interface_basis(files: &PatternFiles) -> (result: Result<RouterInterfaceBasis, BasisError>)
    requires
        files.wf(),
    ensures
        is_basis_result(files, result),
{
    let tiles: Vec<InterfaceProfile> = match routing_interface_profiles(files) {
        Ok(profiles) => profiles,
        Err(error) => {
            return Err(error);
        },
    };
    let macros: Vec<InterfaceProfile> = match macro_interface_profiles(files) {
        Ok(profiles) => profiles,
        Err(error) => {
            return Err(error);
        },
    };
    let ghost ts = profile_models(tiles@);
    let ghost ms = profile_models(macros@);
    proof {
        lemma_profile_count(files, routing_names(), routing_names().len());
        assert(ts.len() == 7);
    }
    let mut horizontal_wire: Vec<InterfaceProfile> = Vec::new();
    horizontal_wire.push(tiles[0]);
    assert(profile_models(horizontal_wire@) =~= seq![ts[0]]);
    let mut vertical_wire: Vec<InterfaceProfile> = Vec::new();
    vertical_wire.push(tiles[1]);
    assert(profile_models(vertical_wire@) =~= seq![ts[1]]);
    let mut pairs: Vec<PhasePair> = Vec::new();
    assert(pair_models(pairs@) =~= Seq::<((Seq<char>, i8), (Seq<char>, i8))>::empty());
    push_pairs(&mut pairs, &tiles, &tiles);
    push_pairs(&mut pairs, &macros, &horizontal_wire);
    push_pairs(&mut pairs, &horizontal_wire, &macros);
    assert(pair_models(pairs@) =~= basis_pairs(ts, ms, ts[0]));
    let across: Vec<Vec<&'static str>> = match connect_pairs(&pairs) {
        Ok(list) => list,
        Err(error) => {
            return Err(error);
        },
    };
    let mut stacks: Vec<Vec<&'static str>> = Vec::new();
    assert(stack_models(stacks@) =~= Seq::<Names>::empty());
    push_stacks(&mut stacks, &tiles, &tiles);
    push_stacks(&mut stacks, &macros, &vertical_wire);
    push_stacks(&mut stacks, &vertical_wire, &macros);
    assert(stack_models(stacks@) =~= basis_stacks(ts, ms, ts[1]));
    let ghost wide = stack_models(across@);
    let ghost high = stack_models(stacks@);
    proof {
        lemma_pair_widths(pair_models(pairs@), pairs@.len());
        lemma_widths(ts, ts, ts.len());
        lemma_widths(ms, seq![ts[1]], ms.len());
        lemma_widths(seq![ts[1]], ms, 1);
        assert forall|i: int| 0 <= i < across@.len() implies (#[trigger] across@[i])@.len() == 3 by {
            assert(wide[i].len() == 3);
        }
        assert forall|i: int| 0 <= i < stacks@.len() implies (#[trigger] stacks@[i])@.len() == 2 by {
            assert(high[i].len() == 2);
        }
    }
    let horizontal: Vec<HorizontalInterfaceFamily> = horizontal_from(distinct_names(across, 3), Ghost(wide));
    let vertical: Vec<VerticalInterfaceFamily> = vertical_from(distinct_names(stacks, 2), Ghost(high));
    Ok(RouterInterfaceBasis { horizontal, vertical })
}

pub proof fn lemma_profile_count(files: &PatternFiles, names: Names, k: nat)
    requires
        k <= names.len(),
    ensures
        profiles_of(files, names, k) matches Ok(profiles) ==> profiles.len() == k && forall|i: int|
            0 <= i < k ==> profile_of(files, names[i]) == Ok::<(Seq<char>, Alignment), BasisFailure>(#[trigger] profiles[i]),
    decreases k,
{
    if k > 0 {
        lemma_profile_count(files, names, (k - 1) as nat);
    }
}

} // verus!
