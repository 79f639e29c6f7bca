//! What the texts of reports tell.

use crate::discharge::InterfaceLemmaReport;
use crate::inputs;
use crate::inputs::InputBoundaryCertificate;
use crate::interfaces;
use crate::padding::DeadBoundaryPaddingCertificate;
use crate::routing;
use crate::routing::RoutingWitness;
use crate::text;
use vstd::prelude::*;

verus! {

/// A text tells a value: it has the value's label, the value and what follows, in one piece.
pub open spec fn tells(line: Seq<char>, label: Seq<char>, value: Seq<char>, next: Seq<char>) -> bool {
    interfaces::holds_part(line, label + value + next)
}

proof fn lemma_tells(before: Seq<char>, label: Seq<char>, value: Seq<char>, next: Seq<char>)
    ensures
        tells(before + label + value + next, label, value, next),
{
    let line = before + label + value + next;
    let part = label + value + next;
    assert(line.subrange(before.len() as int, (before.len() + part.len()) as int) =~= part);
    assert(interfaces::stands_at(line, part, before.len() as int));
}

proof fn lemma_more(line: Seq<char>, more: Seq<char>)
    ensures
        forall|label: Seq<char>, value: Seq<char>, next: Seq<char>| #[trigger]
            tells(line, label, value, next) ==> tells(line + more, label, value, next),
{
    assert forall|label: Seq<char>, value: Seq<char>, next: Seq<char>| #[trigger]
        tells(line, label, value, next) implies tells(line + more, label, value, next) by {
        let part = label + value + next;
        let i = choose|i: int| #[trigger] interfaces::stands_at(line, part, i);
        assert((line + more).subrange(i, i + part.len()) =~= line.subrange(i, i + part.len()));
        assert(interfaces::stands_at(line + more, part, i));
    }
}

/// The bounds of a padding are told as they are, width before height.
pub proof fn law_padding_is_told(certificate: DeadBoundaryPaddingCertificate)
    ensures
        ({
            let line = certificate.summary();
            &&& tells(
                line,
                " support_bound="@,
                text::decimal(certificate.support_width_upper_bound as nat) + "x"@ + text::decimal(
                    certificate.support_height_upper_bound as nat,
                ),
                " finite_board_bound="@,
            )
            &&& tells(
                line,
                " finite_board_bound="@,
                text::decimal(certificate.finite_board_width_upper_bound as nat) + "x"@ + text::decimal(
                    certificate.finite_board_height_upper_bound as nat,
                ),
                " dead_padding="@,
            )
            &&& tells(
                line,
                " dead_padding="@,
                text::decimal(certificate.dead_padding as nat),
                " predecessor_radius="@,
            )
            &&& tells(line, " predecessor_radius="@, text::decimal(certificate.predecessor_radius as nat), Seq::empty())
        }),
{
    let start = "finite_dead_boundary_complete="@ + text::bool_text(certificate.complete());
    let (l1, l2, l3, l4) = (" support_bound="@, " finite_board_bound="@, " dead_padding="@, " predecessor_radius="@);
    let w = text::decimal(certificate.support_width_upper_bound as nat);
    let h = text::decimal(certificate.support_height_upper_bound as nat);
    let v = text::decimal(certificate.finite_board_width_upper_bound as nat);
    let u = text::decimal(certificate.finite_board_height_upper_bound as nat);
    let p = text::decimal(certificate.dead_padding as nat);
    let r = text::decimal(certificate.predecessor_radius as nat);
    let x = "x"@;
    let a = start + l1 + w + x + h + l2;
    let b = a + v + x + u + l3;
    let c = b + p + l4;
    let d = c + r;
    assert(d == certificate.summary());
    lemma_tells(start, l1, w + x + h, l2);
    assert(start + l1 + (w + x + h) + l2 =~= a);
    lemma_tells(start + l1 + w + x + h, l2, v + x + u, l3);
    assert(start + l1 + w + x + h + l2 + (v + x + u) + l3 =~= b);
    lemma_tells(a + v + x + u, l3, p, l4);
    lemma_tells(b + p, l4, r, Seq::empty());
    assert(b + p + l4 + r + Seq::<char>::empty() =~= d);
    lemma_more(a, v);
    lemma_more(a + v, x);
    lemma_more(a + v + x, u);
    lemma_more(a + v + x + u, l3);
    lemma_more(b, p);
    lemma_more(b + p, l4);
    lemma_more(c, r);
}

/// The numbers of a routing are told as they are.
pub proof fn law_routing_is_told(witness: RoutingWitness)
    ensures
        ({
            let line = witness.summary_line();
            &&& tells(line, " route_cells="@, text::decimal(witness.route_cells@.len()), " crossings="@)
            &&& tells(
                line,
                " crossings="@,
                text::decimal(routing::use_count(witness.primitive_usage@, "crossing tile"@)),
                " total_path_length="@,
            )
            &&& tells(
                line,
                " total_path_length="@,
                text::decimal(routing::path_length(witness.net_paths@, witness.net_paths@.len())),
                " bounds="@,
            )
            &&& tells(
                line,
                " bounds="@,
                text::decimal(routing::extent(witness.bounds.min_x as int, witness.bounds.max_x as int)) + "x"@
                    + text::decimal(routing::extent(witness.bounds.min_y as int, witness.bounds.max_y as int)),
                " horizontal_interface_families="@,
            )
            &&& tells(
                line,
                " horizontal_interface_families="@,
                text::decimal(witness.horizontal_families@.len()),
                " vertical_interface_families="@,
            )
            &&& tells(
                line,
                " vertical_interface_families="@,
                text::decimal(witness.vertical_families@.len()),
                Seq::empty(),
            )
        }),
{
    let start = "routing_witness_valid=true route_paths="@ + text::decimal(witness.net_paths@.len()) + " routed_pieces="@
        + text::decimal(witness.pieces@.len());
    let (l1, l2, l3, l4) = (" route_cells="@, " crossings="@, " total_path_length="@, " bounds="@);
    let (l5, l6) = (" horizontal_interface_families="@, " vertical_interface_families="@);
    let v1 = text::decimal(witness.route_cells@.len());
    let v2 = text::decimal(routing::use_count(witness.primitive_usage@, "crossing tile"@));
    let v3 = text::decimal(routing::path_length(witness.net_paths@, witness.net_paths@.len()));
    let w = text::decimal(routing::extent(witness.bounds.min_x as int, witness.bounds.max_x as int));
    let h = text::decimal(routing::extent(witness.bounds.min_y as int, witness.bounds.max_y as int));
    let v5 = text::decimal(witness.horizontal_families@.len());
    let v6 = text::decimal(witness.vertical_families@.len());
    let x = "x"@;
    let a = start + l1 + v1 + l2;
    let b = a + v2 + l3;
    let c = b + v3 + l4;
    let d = c + w + x + h + l5;
    let e = d + v5 + l6;
    let f = e + v6;
    assert(f == witness.summary_line());
    lemma_tells(start, l1, v1, l2);
    lemma_tells(start + l1 + v1, l2, v2, l3);
    lemma_tells(a + v2, l3, v3, l4);
    lemma_tells(b + v3, l4, w + x + h, l5);
    assert(b + v3 + l4 + (w + x + h) + l5 =~= d);
    lemma_tells(c + w + x + h, l5, v5, l6);
    lemma_tells(d + v5, l6, v6, Seq::empty());
    assert(d + v5 + l6 + v6 + Seq::<char>::empty() =~= f);
    lemma_more(a, v2);
    lemma_more(a + v2, l3);
    lemma_more(b, v3);
    lemma_more(b + v3, l4);
    lemma_more(c, w);
    lemma_more(c + w, x);
    lemma_more(c + w + x, h);
    lemma_more(c + w + x + h, l5);
    lemma_more(d, v5);
    lemma_more(d + v5, l6);
    lemma_more(e, v6);
}

/// How many of the outside inputs are variables, and how many are constants, is told as it is.
pub proof fn law_inputs_are_told(certificate: InputBoundaryCertificate)
    ensures
        ({
            let line = certificate.summary();
            let variables = inputs::variable_count(certificate.entries@, certificate.entries@.len());
            &&& tells(line, " input_entries="@, text::decimal(certificate.entries@.len()), " input_families="@)
            &&& tells(line, " input_families="@, text::decimal(certificate.families@.len()), " variable_inputs="@)
            &&& tells(line, " variable_inputs="@, text::decimal(variables), " constant_inputs="@)
            &&& tells(
                line,
                " constant_inputs="@,
                text::decimal((certificate.entries@.len() - variables) as nat),
                Seq::empty(),
            )
        }),
{
    let start = "input_boundary_encoding_complete="@ + text::bool_text(certificate.complete());
    let variables = inputs::variable_count(certificate.entries@, certificate.entries@.len());
    let (l1, l2, l3, l4) = (" input_entries="@, " input_families="@, " variable_inputs="@, " constant_inputs="@);
    let v1 = text::decimal(certificate.entries@.len());
    let v2 = text::decimal(certificate.families@.len());
    let v3 = text::decimal(variables);
    let v4 = text::decimal((certificate.entries@.len() - variables) as nat);
    let a = start + l1 + v1 + l2;
    let b = a + v2 + l3;
    let c = b + v3 + l4;
    let d = c + v4;
    assert(d == certificate.summary());
    lemma_tells(start, l1, v1, l2);
    lemma_tells(start + l1 + v1, l2, v2, l3);
    lemma_tells(a + v2, l3, v3, l4);
    lemma_tells(b + v3, l4, v4, Seq::empty());
    assert(b + v3 + l4 + v4 + Seq::<char>::empty() =~= d);
    lemma_more(a, v2);
    lemma_more(a + v2, l3);
    lemma_more(b, v3);
    lemma_more(b + v3, l4);
    lemma_more(c, v4);
}

/// What was found of a family is told as it is.
pub proof fn law_family_is_told(report: InterfaceLemmaReport)
    ensures
        ({
            let line = report.summary_line();
            &&& tells(line, "]: success="@, text::bool_text(report.succeeds()), " count="@)
            &&& tells(line, " count="@, text::decimal(report.count as nat), " candidates="@)
            &&& tells(line, " candidates="@, text::decimal(report.candidate_count as nat), " external_ports="@)
        }),
{
    let start = report.label@ + " ["@ + interfaces::orientation_text(report.orientation);
    let (l1, l2, l3, l4) = ("]: success="@, " count="@, " candidates="@, " external_ports="@);
    let v1 = text::bool_text(report.succeeds());
    let v2 = text::decimal(report.count as nat);
    let v3 = text::decimal(report.candidate_count as nat);
    let v4 = text::joined(crate::circuit::texts(report.external_ports@), ","@);
    let l5 = " expected_allowed_rows="@;
    let v5 = text::decimal(report.expected_allowed_rows as nat);
    let tail = match report.error {
        Some(error) => " error="@ + error@,
        None => ""@,
    };
    let a = start + l1 + v1 + l2;
    let b = a + v2 + l3;
    let c = b + v3 + l4;
    assert(c + v4 + l5 + v5 + tail == report.summary_line());
    lemma_tells(start, l1, v1, l2);
    lemma_tells(start + l1 + v1, l2, v2, l3);
    lemma_tells(a + v2, l3, v3, l4);
    lemma_more(a, v2);
    lemma_more(a + v2, l3);
    lemma_more(b, v3);
    lemma_more(b + v3, l4);
    lemma_more(c, v4);
    lemma_more(c + v4, l5);
    lemma_more(c + v4 + l5, v5);
    lemma_more(c + v4 + l5 + v5, tail);
}

} // verus!
