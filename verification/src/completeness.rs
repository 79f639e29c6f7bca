//! What complete certificates promise.

use crate::certificate::RoutingBasisCoverage;
use crate::inputs;
use crate::inputs::{EntryModel, InputBoundaryCertificate};
use crate::padding::DeadBoundaryPaddingCertificate;
use vstd::prelude::*;

verus! {

/// Where the padding is complete, a construction that is no larger than its bounds can be put on a
/// board of the stated size so that the neighbours of its cells, and the neighbours of these, all lie
/// on the board.
pub proof fn law_complete_padding_isolates(certificate: DeadBoundaryPaddingCertificate, x: int, y: int, dx: int, dy: int)
    requires
        certificate.complete(),
        0 <= x < certificate.support_width_upper_bound,
        0 <= y < certificate.support_height_upper_bound,
        -2 <= dx <= 2,
        -2 <= dy <= 2,
    ensures
        0 <= certificate.dead_padding + x + dx < certificate.finite_board_width_upper_bound,
        0 <= certificate.dead_padding + y + dy < certificate.finite_board_height_upper_bound,
        certificate.predecessor_radius == 1,
        certificate.dead_padding > certificate.predecessor_radius,
{
}

/// The certificate of the inputs is complete if and only if no two inputs enter at one place and each
/// takes both values.
pub proof fn law_complete_inputs(certificate: InputBoundaryCertificate, entries: Seq<EntryModel>)
    requires
        inputs::is_certificate(certificate, entries),
    ensures
        certificate.complete() <==> {
            &&& forall|i: int, j: int| #![trigger entries[i], entries[j]]
                0 <= i < j < entries.len() ==> entries[i].source != entries[j].source
            &&& forall|i: int| 0 <= i < entries.len() ==> (#[trigger] entries[i]).values == seq![0u8, 1u8]
        },
{
}

/// Where the basis is complete, it has straight wires, turns and a crossing, and a connector for any
/// two phases.
pub proof fn law_complete_basis_joins_all(coverage: RoutingBasisCoverage, west: i8, east: i8)
    requires
        coverage.rectilinear_complete(),
        -1 <= west <= 1,
        -1 <= east <= 1,
    ensures
        coverage.straight_wires_present,
        coverage.turn_tiles_present,
        coverage.crossing_present,
        coverage.connector_phase_pairs@.contains((west, east)),
{
    let pairs = coverage.connector_phase_pairs@;
    let i = 3 * (west + 1) + (east + 1);
    assert(pairs[i] == (west, east));
}

} // verus!
