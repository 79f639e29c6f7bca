//! The gadgets that the two directions of the reduction rest on.

use vstd::prelude::*;

verus! {

/// The direction of the reduction that a gadget serves.
#[derive(Debug, Clone, Copy, PartialEq, Eq, Structural)]
pub enum GadgetDirection {
    RevGolToSat,
    SatToRevGol,
}

/// How far a gadget is worked out.
#[derive(Debug, Clone, Copy, PartialEq, Eq, Structural)]
pub enum GadgetStatus {
    Implemented,
    RequiredButMissing,
    UnsafeHeuristic,
}

/// What is known of a gadget, and what has to be shown of it.
#[derive(Debug, Clone, PartialEq, Eq)]
pub struct GadgetSpec {
    pub id: &'static str,
    pub direction: GadgetDirection,
    pub status: GadgetStatus,
    pub purpose: &'static str,
    pub construction: &'static str,
    pub proof_obligations: Vec<&'static str>,
}

/// What is known of a gadget, over texts.
#[verifier::ext_equal]
pub struct GadgetModel {
    pub id: Seq<char>,
    pub direction: GadgetDirection,
    pub status: GadgetStatus,
    pub purpose: Seq<char>,
    pub construction: Seq<char>,
    pub obligations: Seq<Seq<char>>,
}

/// The texts of obligations.
pub open spec fn obligation_texts(list: Seq<&'static str>) -> Seq<Seq<char>> {
    Seq::new(list.len(), |i: int| list[i]@)
}

impl View for GadgetSpec {
    type V = GadgetModel;

    open spec fn view(&self) -> GadgetModel {
        GadgetModel {
            id: self.id@,
            direction: self.direction,
            status: self.status,
            purpose: self.purpose@,
            construction: self.construction@,
            obligations: obligation_texts(self.proof_obligations@),
        }
    }
}

impl GadgetSpec {
    /// A gadget with the given properties.
    pub fn new(
        id: &'static str,
        direction: GadgetDirection,
        status: GadgetStatus,
        purpose: &'static str,
        construction: &'static str,
        proof_obligations: Vec<&'static str>,
    ) -> (spec: Self)
        ensures
            spec@ == (GadgetModel {
                id: id@,
                direction,
                status,
                purpose: purpose@,
                construction: construction@,
                obligations: obligation_texts(proof_obligations@),
            }),
    {
        GadgetSpec { id, direction, status, purpose, construction, proof_obligations }
    }
}

/// Gadgets, over texts.
pub open spec fn gadget_models(list: Seq<GadgetSpec>) -> Seq<GadgetModel> {
    Seq::new(list.len(), |i: int| list[i]@)
}

fn two(a: &'static str, b: &'static str) -> (list: Vec<&'static str>)
    ensures
        obligation_texts(list@) == seq![a@, b@],
{
    let mut list: Vec<&'static str> = Vec::new();
    list.push(a);
    list.push(b);
    assert(obligation_texts(list@) =~= seq![a@, b@]);
    list
}

fn three(a: &'static str, b: &'static str, c: &'static str) -> (list: Vec<&'static str>)
    ensures
        obligation_texts(list@) == seq![a@, b@, c@],
{
    let mut list: Vec<&'static str> = Vec::new();
    list.push(a);
    list.push(b);
    list.push(c);
    assert(obligation_texts(list@) =~= seq![a@, b@, c@]);
    list
}

/// The gadgets of the encoding of predecessors as a formula.
pub open spec fn encoding_gadgets() -> Seq<GadgetModel> {
    seq![
        GadgetModel {
            id: "final_state_pinning"@,
            direction: GadgetDirection::RevGolToSat,
            status: GadgetStatus::Implemented,
            purpose: "Fix the final time slice to the target instance."@,
            construction: "One unit clause per cell in the final layer."@,
            obligations: seq![
                "A satisfying assignment matches the target exactly at the final time step."@,
                "Any valid reverse-Life witness satisfies all unit clauses."@,
            ],
        },
        GadgetModel {
            id: "local_transition_truth_table"@,
            direction: GadgetDirection::RevGolToSat,
            status: GadgetStatus::Implemented,
            purpose: "Enforce the Life update rule for one cell over one time step."@,
            construction: "For each current-cell value and each exact neighbor pattern, emit one implication clause fixing the next-state bit."@,
            obligations: seq![
                "Every satisfying assignment yields a valid Life transition cellwise."@,
                "Every valid Life transition satisfies every generated clause."@,
                "The clause count is constant per cell-time pair."@,
            ],
        },
        GadgetModel {
            id: "boundary_wiring"@,
            direction: GadgetDirection::RevGolToSat,
            status: GadgetStatus::Implemented,
            purpose: "Interpret the neighborhood under dead, wrap, or mirror boundaries."@,
            construction: "Out-of-bounds neighbors are either omitted, wrapped, or mirrored before connecting to cell variables."@,
            obligations: seq![
                "The chosen boundary condition matches the forward simulator exactly."@,
                "Repeated wrapped or mirrored neighbors are treated as a multiset of neighbor slots."@,
            ],
        },
        GadgetModel {
            id: "symmetry_breaking_heuristics"@,
            direction: GadgetDirection::RevGolToSat,
            status: GadgetStatus::UnsafeHeuristic,
            purpose: "Prune the search space with ad hoc dominance constraints."@,
            construction: "Pairwise implications over sampled cells and geometric transforms."@,
            obligations: seq![
                "These constraints are not part of the proof-safe core encoding."@,
                "They must be excluded from completeness claims unless separately justified."@,
            ],
        },
    ]
}

/// The gadgets of the encoding of predecessors as a formula.
pub fn rev_gol_to_sat_gadgets() -> (list: Vec<GadgetSpec>)
    ensures
        gadget_models(list@) == encoding_gadgets(),
{
    let mut list: Vec<GadgetSpec> = Vec::new();
    list.push(
        GadgetSpec::new(
            "final_state_pinning",
            GadgetDirection::RevGolToSat,
            GadgetStatus::Implemented,
            "Fix the final time slice to the target instance.",
            "One unit clause per cell in the final layer.",
            two(
                "A satisfying assignment matches the target exactly at the final time step.",
                "Any valid reverse-Life witness satisfies all unit clauses.",
            ),
        ),
    );
    list.push(
        GadgetSpec::new(
            "local_transition_truth_table",
            GadgetDirection::RevGolToSat,
            GadgetStatus::Implemented,
            "Enforce the Life update rule for one cell over one time step.",
            "For each current-cell value and each exact neighbor pattern, emit one implication clause fixing the next-state bit.",
            three(
                "Every satisfying assignment yields a valid Life transition cellwise.",
                "Every valid Life transition satisfies every generated clause.",
                "The clause count is constant per cell-time pair.",
            ),
        ),
    );
    list.push(
        GadgetSpec::new(
            "boundary_wiring",
            GadgetDirection::RevGolToSat,
            GadgetStatus::Implemented,
            "Interpret the neighborhood under dead, wrap, or mirror boundaries.",
            "Out-of-bounds neighbors are either omitted, wrapped, or mirrored before connecting to cell variables.",
            two(
                "The chosen boundary condition matches the forward simulator exactly.",
                "Repeated wrapped or mirrored neighbors are treated as a multiset of neighbor slots.",
            ),
        ),
    );
    list.push(
        GadgetSpec::new(
            "symmetry_breaking_heuristics",
            GadgetDirection::RevGolToSat,
            GadgetStatus::UnsafeHeuristic,
            "Prune the search space with ad hoc dominance constraints.",
            "Pairwise implications over sampled cells and geometric transforms.",
            two(
                "These constraints are not part of the proof-safe core encoding.",
                "They must be excluded from completeness claims unless separately justified.",
            ),
        ),
    );
    assert(gadget_models(list@) =~= encoding_gadgets());
    list
}

/// The gadgets that a reduction from formulas to predecessors needs.
pub open spec fn reduction_gadgets() -> Seq<GadgetModel> {
    seq![
        GadgetModel {
            id: "bit_wire"@,
            direction: GadgetDirection::SatToRevGol,
            status: GadgetStatus::RequiredButMissing,
            purpose: "Transmit a Boolean signal across space while preserving phase/timing."@,
            construction: "A fixed rectangular target pattern with one input port and one output port."@,
            obligations: seq![
                "Exactly two interface behaviors encode false/true."@,
                "The output port realizes the same bit as the input port after the gadget delay."@,
                "Internal cells do not leak unintended signals outside the gadget footprint."@,
            ],
        },
        GadgetModel {
            id: "wire_turn"@,
            direction: GadgetDirection::SatToRevGol,
            status: GadgetStatus::RequiredButMissing,
            purpose: "Route a wire around the layout without changing the represented bit."@,
            construction: "A constant-size elbow gadget compatible with the wire protocol."@,
            obligations: seq![
                "Truth values are preserved across the bend."@,
                "The phase delay matches the routing model used by the compiler."@,
            ],
        },
        GadgetModel {
            id: "wire_splitter"@,
            direction: GadgetDirection::SatToRevGol,
            status: GadgetStatus::RequiredButMissing,
            purpose: "Fan one signal out to multiple downstream gadgets."@,
            construction: "A one-input, two-output gadget using the same port protocol as the wire."@,
            obligations: seq![
                "Both outputs equal the input bit."@,
                "No additional valid predecessor behaviors appear on the outputs."@,
            ],
        },
        GadgetModel {
            id: "wire_crossover"@,
            direction: GadgetDirection::SatToRevGol,
            status: GadgetStatus::RequiredButMissing,
            purpose: "Allow two wires to cross without interacting."@,
            construction: "A constant-size gadget with two independent channels."@,
            obligations: seq![
                "Each output depends only on its corresponding input channel."@,
                "The gadget composes without crosstalk in the surrounding zero background."@,
            ],
        },
        GadgetModel {
            id: "inverter"@,
            direction: GadgetDirection::SatToRevGol,
            status: GadgetStatus::RequiredButMissing,
            purpose: "Implement logical negation."@,
            construction: "A one-input, one-output gadget compatible with the wire protocol."@,
            obligations: seq![
                "True maps to false and false maps to true."@,
                "Delay and phase are explicit so the gadget can be composed in circuits."@,
            ],
        },
        GadgetModel {
            id: "universal_gate"@,
            direction: GadgetDirection::SatToRevGol,
            status: GadgetStatus::RequiredButMissing,
            purpose: "Implement a functionally complete Boolean gate such as NAND or NOR."@,
            construction: "A constant-size gadget with two inputs and one output."@,
            obligations: seq![
                "The output realizes the target Boolean function of the inputs."@,
                "Every allowed port assignment has at least one preimage inside the gadget."@,
                "Every forbidden port assignment is UNSAT inside the gadget footprint."@,
            ],
        },
        GadgetModel {
            id: "input_anchor"@,
            direction: GadgetDirection::SatToRevGol,
            status: GadgetStatus::RequiredButMissing,
            purpose: "Introduce unconstrained primary inputs corresponding to SAT variables."@,
            construction: "A boundary or source gadget whose predecessor choices encode true/false."@,
            obligations: seq![
                "Each SAT variable has exactly two legal predecessor encodings."@,
                "The chosen encoding can be routed into the circuit without ambiguity."@,
            ],
        },
        GadgetModel {
            id: "output_constraint"@,
            direction: GadgetDirection::SatToRevGol,
            status: GadgetStatus::RequiredButMissing,
            purpose: "Force the compiled circuit output to be true in the target instance."@,
            construction: "A sink gadget or terminal condition attached to the circuit output wire."@,
            obligations: seq![
                "A predecessor exists iff the output bit is true."@,
                "The sink does not introduce spurious predecessors unrelated to the circuit value."@,
            ],
        },
        GadgetModel {
            id: "moat_padding"@,
            direction: GadgetDirection::SatToRevGol,
            status: GadgetStatus::RequiredButMissing,
            purpose: "Isolate gadgets on a finite board and prevent unwanted edge interactions."@,
            construction: "A fixed all-dead collar or explicit buffer region around the compiled layout."@,
            obligations: seq![
                "Signals do not interact across gadget boundaries except at declared ports."@,
                "The finite-board construction simulates the intended infinite or padded environment."@,
            ],
        },
    ]
}

/// The gadgets that a reduction from formulas to predecessors needs.
pub fn sat_to_rev_gol_required_gadgets() -> (list: Vec<GadgetSpec>)
    ensures
        gadget_models(list@) == reduction_gadgets(),
{
    let mut list: Vec<GadgetSpec> = Vec::new();
    list.push(
        GadgetSpec::new(
            "bit_wire",
            GadgetDirection::SatToRevGol,
            GadgetStatus::RequiredButMissing,
            "Transmit a Boolean signal across space while preserving phase/timing.",
            "A fixed rectangular target pattern with one input port and one output port.",
            three(
                "Exactly two interface behaviors encode false/true.",
                "The output port realizes the same bit as the input port after the gadget delay.",
                "Internal cells do not leak unintended signals outside the gadget footprint.",
            ),
        ),
    );
    list.push(
        GadgetSpec::new(
            "wire_turn",
            GadgetDirection::SatToRevGol,
            GadgetStatus::RequiredButMissing,
            "Route a wire around the layout without changing the represented bit.",
            "A constant-size elbow gadget compatible with the wire protocol.",
            two(
                "Truth values are preserved across the bend.",
                "The phase delay matches the routing model used by the compiler.",
            ),
        ),
    );
    list.push(
        GadgetSpec::new(
            "wire_splitter",
            GadgetDirection::SatToRevGol,
            GadgetStatus::RequiredButMissing,
            "Fan one signal out to multiple downstream gadgets.",
            "A one-input, two-output gadget using the same port protocol as the wire.",
            two(
                "Both outputs equal the input bit.",
                "No additional valid predecessor behaviors appear on the outputs.",
            ),
        ),
    );
    list.push(
        GadgetSpec::new(
            "wire_crossover",
            GadgetDirection::SatToRevGol,
            GadgetStatus::RequiredButMissing,
            "Allow two wires to cross without interacting.",
            "A constant-size gadget with two independent channels.",
            two(
                "Each output depends only on its corresponding input channel.",
                "The gadget composes without crosstalk in the surrounding zero background.",
            ),
        ),
    );
    list.push(
        GadgetSpec::new(
            "inverter",
            GadgetDirection::SatToRevGol,
            GadgetStatus::RequiredButMissing,
            "Implement logical negation.",
            "A one-input, one-output gadget compatible with the wire protocol.",
            two(
                "True maps to false and false maps to true.",
                "Delay and phase are explicit so the gadget can be composed in circuits.",
            ),
        ),
    );
    list.push(
        GadgetSpec::new(
            "universal_gate",
            GadgetDirection::SatToRevGol,
            GadgetStatus::RequiredButMissing,
            "Implement a functionally complete Boolean gate such as NAND or NOR.",
            "A constant-size gadget with two inputs and one output.",
            three(
                "The output realizes the target Boolean function of the inputs.",
                "Every allowed port assignment has at least one preimage inside the gadget.",
                "Every forbidden port assignment is UNSAT inside the gadget footprint.",
            ),
        ),
    );
    list.push(
        GadgetSpec::new(
            "input_anchor",
            GadgetDirection::SatToRevGol,
            GadgetStatus::RequiredButMissing,
            "Introduce unconstrained primary inputs corresponding to SAT variables.",
            "A boundary or source gadget whose predecessor choices encode true/false.",
            two(
                "Each SAT variable has exactly two legal predecessor encodings.",
                "The chosen encoding can be routed into the circuit without ambiguity.",
            ),
        ),
    );
    list.push(
        GadgetSpec::new(
            "output_constraint",
            GadgetDirection::SatToRevGol,
            GadgetStatus::RequiredButMissing,
            "Force the compiled circuit output to be true in the target instance.",
            "A sink gadget or terminal condition attached to the circuit output wire.",
            two(
                "A predecessor exists iff the output bit is true.",
                "The sink does not introduce spurious predecessors unrelated to the circuit value.",
            ),
        ),
    );
    list.push(
        GadgetSpec::new(
            "moat_padding",
            GadgetDirection::SatToRevGol,
            GadgetStatus::RequiredButMissing,
            "Isolate gadgets on a finite board and prevent unwanted edge interactions.",
            "A fixed all-dead collar or explicit buffer region around the compiled layout.",
            two(
                "Signals do not interact across gadget boundaries except at declared ports.",
                "The finite-board construction simulates the intended infinite or padded environment.",
            ),
        ),
    );
    assert(gadget_models(list@) =~= reduction_gadgets());
    list
}

} // verus!
