//! Gadgets: target patterns with named ports, and what their predecessors can do there.

use crate::clock::Deadline;
use crate::encoding::Cell;
use crate::encoding::CellCoord;
use crate::encoding::{predecessor_clauses, variable_number};
use crate::grid::Grid;
use crate::settings::SolverBackend;
use crate::solver::{copy_values, find_model, Search};
use crate::strmap::{copy_texts, StrMap};
use crate::text::{push_i64, same_text, text_before};
use crate::encoding;
use crate::solver;
use crate::strmap;
use crate::text;
use crate::circuit;
use vstd::prelude::*;

verus! {

/// A cell that must be alive, or must be dead, in the predecessor.
#[derive(Debug, Clone, Copy, PartialEq, Eq, Hash, Structural)]
pub struct CellLiteral {
    pub coord: CellCoord,
    pub alive: bool,
}

impl CellLiteral {
    /// The cell must be alive.
    pub fn alive(x: isize, y: isize) -> (literal: Self)
        ensures
            literal == (CellLiteral { coord: CellCoord { x, y }, alive: true }),
    {
        Self { coord: CellCoord::new(x, y), alive: true }
    }

    /// The cell must be dead.
    pub fn dead(x: isize, y: isize) -> (literal: Self)
        ensures
            literal == (CellLiteral { coord: CellCoord { x, y }, alive: false }),
    {
        Self { coord: CellCoord::new(x, y), alive: false }
    }
}

/// A named place on the predecessor, with named states that fix cells there.
#[derive(Debug, Clone, PartialEq, Eq)]
pub struct Port {
    pub name: String,
    pub states: StrMap<Vec<CellLiteral>>,
}

/// A target pattern, its ports, and the cells of the predecessor that are always fixed.
#[derive(Debug, Clone, PartialEq, Eq)]
pub struct GadgetPattern {
    pub name: String,
    pub target: Grid,
    pub ports: Vec<Port>,
    pub base_predecessor_literals: Vec<CellLiteral>,
}

/// The names of states, by port.
#[derive(Debug, Clone, PartialEq, Eq)]
pub struct PortAssignment {
    pub states: StrMap<String>,
}

impl View for PortAssignment {
    type V = Map<Seq<char>, Seq<char>>;

    open spec fn view(&self) -> Map<Seq<char>, Seq<char>> {
        strmap::text_values(self.states@)
    }
}

/// How the verifier runs. With a time limit, in seconds, every search for a predecessor ends
/// when the limit is reached, if not before; without one, it runs to its answer. The other
/// fields say how a solver should work; no answer depends on them.
#[derive(Debug, Clone, Copy)]
pub struct GadgetVerifierConfig {
    pub backend: SolverBackend,
    pub num_threads: Option<usize>,
    pub enable_preprocessing: bool,
    pub verbosity: u32,
    pub timeout: Option<u64>,
}

impl Default for GadgetVerifierConfig {
    fn default() -> (config: Self)
        ensures
            config == (GadgetVerifierConfig {
                backend: SolverBackend::Parkissat,
                num_threads: None,
                enable_preprocessing: true,
                verbosity: 0,
                timeout: None,
            }),
    {
        Self {
            backend: SolverBackend::Parkissat,
            num_threads: None,
            enable_preprocessing: true,
            verbosity: 0,
            timeout: None,
        }
    }
}

/// An assignment, and whether the gadget allows it.
#[derive(Debug, Clone)]
pub struct AssignmentCheck {
    pub assignment: PortAssignment,
    pub satisfiable: bool,
}

/// What became of the assignments that a gadget should allow and of those that it should
/// forbid.
#[derive(Debug, Clone)]
pub struct RelationCheckReport {
    pub allowed_assignments_hold: bool,
    pub forbidden_assignments_hold: bool,
    pub allowed_results: Vec<AssignmentCheck>,
    pub forbidden_results: Vec<AssignmentCheck>,
}

/// Whether the outputs land in named states once the inputs are fixed.
#[derive(Debug, Clone)]
pub struct ChargingCheck {
    pub fixed_assignment: PortAssignment,
    pub output_ports: Vec<String>,
    pub all_outputs_are_named_states: bool,
    pub observed_outputs: Vec<ProjectedPortState>,
}

/// The state that a predecessor shows at each observed port, where it shows a named one.
#[derive(Debug, Clone, PartialEq, Eq)]
pub struct ProjectedPortState {
    pub states: StrMap<Option<String>>,
}

/// Decides what the predecessors of gadgets can do.
pub struct GadgetVerifier {
    config: GadgetVerifierConfig,
}

/// What is wrong with a question about a gadget, over texts.
pub enum VerifierFailure {
    UnknownPort(Seq<char>, Seq<char>),
    UnknownState(Seq<char>, Seq<char>),
    OutsideDomain(Cell, Seq<char>),
    Conflict(Cell, Seq<char>),
    NoVariable(Cell),
    TimedOut,
}

/// What is wrong with a question about a gadget.
#[derive(Debug)]
pub enum VerifierError {
    /// The gadget has no port of that name.
    UnknownPort { port: String, gadget: String },
    /// The port has no state of that name.
    UnknownState { port: String, state: String },
    /// A fixed cell lies where it cannot matter.
    OutsideDomain { coord: CellCoord, gadget: String },
    /// A cell must be both alive and dead.
    Conflict { coord: CellCoord, source: String },
    /// A cell of an observed port lies where it cannot matter.
    NoVariable { coord: CellCoord },
    /// A search was not done when its time was up.
    TimedOut,
}

impl View for VerifierError {
    type V = VerifierFailure;

    open spec fn view(&self) -> VerifierFailure {
        match *self {
            VerifierError::UnknownPort { port, gadget } => VerifierFailure::UnknownPort(port@, gadget@),
            VerifierError::UnknownState { port, state } => VerifierFailure::UnknownState(port@, state@),
            VerifierError::OutsideDomain { coord, gadget } => VerifierFailure::OutsideDomain(coord@, gadget@),
            VerifierError::Conflict { coord, source } => VerifierFailure::Conflict(coord@, source@),
            VerifierError::NoVariable { coord } => VerifierFailure::NoVariable(coord@),
            VerifierError::TimedOut => VerifierFailure::TimedOut,
        }
    }
}

/// The message of a failure.
pub open spec fn failure_text(failure: VerifierFailure) -> Seq<char> {
    match failure {
        VerifierFailure::UnknownPort(port, gadget) => "Unknown port '"@ + port + "' on gadget '"@ + gadget
            + "'"@,
        VerifierFailure::UnknownState(port, state) => "Port '"@ + port + "' has no state '"@ + state + "'"@,
        VerifierFailure::OutsideDomain(cell, gadget) => "Coordinate ("@ + text::signed_decimal(cell.0) + ", "@
            + text::signed_decimal(cell.1) + ") is outside gadget '"@ + gadget + "' preimage domain"@,
        VerifierFailure::Conflict(cell, source) => "Conflicting predecessor requirements at ("@ + text::signed_decimal(
            cell.0,
        ) + ", "@ + text::signed_decimal(cell.1) + ") while processing "@ + source,
        VerifierFailure::NoVariable(cell) => "No variable allocated for CellCoord { x: "@ + text::signed_decimal(
            cell.0,
        ) + ", y: "@ + text::signed_decimal(cell.1) + " }"@,
        VerifierFailure::TimedOut => "The search for a predecessor ran out of time"@,
    }
}

impl VerifierError {
    /// The message of the error.
    pub fn to_string(&self) -> (message: String)
        ensures
            message@ == failure_text(self@),
    {
        match self {
            VerifierError::UnknownPort { port, gadget } => {
                let mut out: String = "Unknown port '".to_owned();
                out.append(port.as_str());
                out.append("' on gadget '");
                out.append(gadget.as_str());
                out.append("'");
                out
            },
            VerifierError::UnknownState { port, state } => {
                let mut out: String = "Port '".to_owned();
                out.append(port.as_str());
                out.append("' has no state '");
                out.append(state.as_str());
                out.append("'");
                out
            },
            VerifierError::OutsideDomain { coord, gadget } => {
                let mut out: String = "Coordinate (".to_owned();
                push_i64(&mut out, coord.x as i64);
                out.append(", ");
                push_i64(&mut out, coord.y as i64);
                out.append(") is outside gadget '");
                out.append(gadget.as_str());
                out.append("' preimage domain");
                out
            },
            VerifierError::Conflict { coord, source } => {
                let mut out: String = "Conflicting predecessor requirements at (".to_owned();
                push_i64(&mut out, coord.x as i64);
                out.append(", ");
                push_i64(&mut out, coord.y as i64);
                out.append(") while processing ");
                out.append(source.as_str());
                out
            },
            VerifierError::NoVariable { coord } => {
                let mut out: String = "No variable allocated for CellCoord { x: ".to_owned();
                push_i64(&mut out, coord.x as i64);
                out.append(", y: ");
                push_i64(&mut out, coord.y as i64);
                out.append(" }");
                out
            },
            VerifierError::TimedOut => "The search for a predecessor ran out of time".to_owned(),
        }
    }
}

impl Port {
    /// The port's validity: its states stand in the order of their names.
    pub open spec fn wf(&self) -> bool {
        self.states.wf()
    }

    /// A port without states.
    pub fn new(name: &str) -> (port: Self)
        ensures
            port.wf(),
            port.name@ == name@,
            port.states@ == Map::<Seq<char>, Vec<CellLiteral>>::empty(),
    {
        Self { name: name.to_owned(), states: StrMap::new() }
    }

    /// The port with one more state, or with other cells for a state that it has.
    pub fn with_state(self, state_name: &str, literals: Vec<CellLiteral>) -> (port: Self)
        requires
            self.wf(),
        ensures
            port.wf(),
            port.name == self.name,
            port.states@ == self.states@.insert(state_name@, literals),
    {
        let mut port: Port = self;
        port.states.insert(state_name.to_owned(), literals);
        port
    }

    /// The cells that a state fixes.
    pub fn literals_for_state(&self, state_name: &str) -> (result: Result<&Vec<CellLiteral>, VerifierError>)
        requires
            self.wf(),
        ensures
            match result {
                Ok(literals) => self.states@.contains_key(state_name@) && *literals == self.states@[state_name@],
                Err(error) => !self.states@.contains_key(state_name@) && error@
                    == VerifierFailure::UnknownState(self.name@, state_name@),
            },
    {
        match self.states.get(state_name) {
            Some(literals) => Ok(literals),
            None => Err(
                VerifierError::UnknownState { port: self.name.clone(), state: state_name.to_owned() },
            ),
        }
    }

    /// The names of the states in ascending order.
    pub fn state_names(&self) -> (names: Vec<String>)
        ensures
            crate::circuit::texts(names@) == self.states.key_seq(),
    {
        let ghost keys = self.states.key_seq();
        let mut names: Vec<String> = Vec::new();
        let mut k: usize = 0;
        while k < self.states.len()
            invariant
                k <= keys.len(),
                keys == self.states.key_seq(),
                crate::circuit::texts(names@) == keys.take(k as int),
            decreases keys.len() - k,
        {
            let ghost before = names@;
            names.push(self.states.key_at(k).clone());
            assert(crate::circuit::texts(names@) =~= crate::circuit::texts(before).push(keys[k as int]));
            assert(crate::circuit::texts(names@) =~= keys.take(k + 1));
            k += 1;
        }
        assert(keys.take(k as int) =~= keys);
        names
    }
}

/// The position of the first port with a name, and the number of ports where there is none.
pub open spec fn port_position(ports: Seq<Port>, name: Seq<char>) -> int
    decreases ports.len(),
{
    if ports.len() == 0 {
        0
    } else if ports[0].name@ == name {
        0
    } else {
        1 + port_position(ports.drop_first(), name)
    }
}

pub proof fn lemma_port_position(ports: Seq<Port>, name: Seq<char>, i: int)
    requires
        0 <= i <= ports.len(),
        forall|j: int| 0 <= j < i ==> (#[trigger] ports[j]).name@ != name,
        i < ports.len() ==> ports[i].name@ == name,
    ensures
        port_position(ports, name) == i,
    decreases ports.len(),
{
    if ports.len() > 0 && i > 0 {
        assert(ports[0].name@ != name);
        let rest = ports.drop_first();
        assert forall|j: int| 0 <= j < i - 1 implies (#[trigger] rest[j]).name@ != name by {
            assert(rest[j] == ports[j + 1]);
        }
        lemma_port_position(rest, name, i - 1);
    }
}

impl GadgetPattern {
    /// The gadget's validity.
    pub open spec fn wf(&self) -> bool {
        &&& self.target.wf()
        &&& forall|i: int| 0 <= i < self.ports@.len() ==> (#[trigger] self.ports@[i]).wf()
    }

    /// The places that decide about the target are few enough to be numbered.
    pub open spec fn encodable(&self) -> bool {
        encoding::place_count(self.target.width as int, self.target.height as int) < i32::MAX
    }

    /// A gadget without ports and without fixed cells.
    pub fn new(name: &str, target: Grid) -> (gadget: Self)
        requires
            target.wf(),
        ensures
            gadget.wf(),
            gadget.name@ == name@,
            gadget.target == target,
            gadget.ports@.len() == 0,
            gadget.base_predecessor_literals@.len() == 0,
    {
        Self { name: name.to_owned(), target, ports: Vec::new(), base_predecessor_literals: Vec::new() }
    }

    /// The gadget with one more port.
    pub fn with_port(self, port: Port) -> (gadget: Self)
        requires
            self.wf(),
            port.wf(),
        ensures
            gadget.wf(),
            gadget.name == self.name,
            gadget.target == self.target,
            gadget.ports@ == self.ports@.push(port),
            gadget.base_predecessor_literals == self.base_predecessor_literals,
    {
        let mut gadget: GadgetPattern = self;
        gadget.ports.push(port);
        gadget
    }

    /// The gadget with other fixed cells.
    pub fn with_base_predecessor_literals(self, literals: Vec<CellLiteral>) -> (gadget: Self)
        requires
            self.wf(),
        ensures
            gadget.wf(),
            gadget.name == self.name,
            gadget.target == self.target,
            gadget.ports == self.ports,
            gadget.base_predecessor_literals == literals,
    {
        let mut gadget: GadgetPattern = self;
        gadget.base_predecessor_literals = literals;
        gadget
    }

    /// The first port with a name.
    fn port(&self, port_name: &str) -> (result: Result<&Port, VerifierError>)
        requires
            self.wf(),
        ensures
            match result {
                Ok(port) => port_position(self.ports@, port_name@) < self.ports@.len() && *port
                    == self.ports@[port_position(self.ports@, port_name@)] && port.wf(),
                Err(error) => port_position(self.ports@, port_name@) == self.ports@.len() && error@
                    == VerifierFailure::UnknownPort(port_name@, self.name@),
            },
    {
        let mut i: usize = 0;
        while i < self.ports.len()
            invariant
                i <= self.ports@.len(),
                self.wf(),
                forall|j: int| 0 <= j < i ==> (#[trigger] self.ports@[j]).name@ != port_name@,
            decreases self.ports.len() - i,
        {
            if same_text(self.ports[i].name.as_str(), port_name) {
                proof {
                    lemma_port_position(self.ports@, port_name@, i as int);
                }
                return Ok(&self.ports[i]);
            }
            i += 1;
        }
        proof {
            lemma_port_position(self.ports@, port_name@, i as int);
        }
        Err(VerifierError::UnknownPort { port: port_name.to_owned(), gadget: self.name.clone() })
    }
}

impl PortAssignment {
    /// The assignment's validity: its ports stand in the order of their names.
    pub open spec fn wf(&self) -> bool {
        self.states.wf()
    }

    /// The assignment of no port.
    pub fn new() -> (assignment: Self)
        ensures
            assignment.wf(),
            assignment@ == Map::<Seq<char>, Seq<char>>::empty(),
    {
        let assignment: PortAssignment = Self { states: StrMap::new() };
        assert(assignment@ =~= Map::<Seq<char>, Seq<char>>::empty());
        assignment
    }

    /// The assignment with one more port, or with another state for a port that it has.
    pub fn with_state(self, port_name: &str, state_name: &str) -> (assignment: Self)
        requires
            self.wf(),
        ensures
            assignment.wf(),
            assignment@ == self@.insert(port_name@, state_name@),
    {
        let ghost before = self@;
        let mut assignment: PortAssignment = self;
        assignment.states.insert(port_name.to_owned(), state_name.to_owned());
        assert(assignment@ =~= before.insert(port_name@, state_name@));
        assignment
    }

    /// A copy of the assignment.
    pub fn copy(&self) -> (copy: Self)
        requires
            self.wf(),
        ensures
            copy.wf(),
            copy@ == self@,
    {
        PortAssignment { states: copy_texts(&self.states) }
    }
}

impl Default for PortAssignment {
    fn default() -> (assignment: Self)
        ensures
            assignment.wf(),
            assignment@ == Map::<Seq<char>, Seq<char>>::empty(),
    {
        Self::new()
    }
}

/// Which cells must be alive and which must be dead.
pub type Needs = Map<Cell, bool>;

/// The needs with the first `k` literals added; a literal outside the domain, and one that
/// contradicts an earlier one, is an error.
pub open spec fn with_literals(
    gadget: &GadgetPattern,
    needs: Needs,
    literals: Seq<CellLiteral>,
    k: nat,
    source: Seq<char>,
) -> Result<Needs, VerifierFailure>
    decreases k,
{
    if k == 0 {
        Ok(needs)
    } else {
        match with_literals(gadget, needs, literals, (k - 1) as nat, source) {
            Err(failure) => Err(failure),
            Ok(earlier) => {
                let cell = literals[k - 1].coord@;
                let alive = literals[k - 1].alive;
                if !encoding::in_domain(cell, gadget.target.width as int, gadget.target.height as int) {
                    Err(VerifierFailure::OutsideDomain(cell, gadget.name@))
                } else if earlier.contains_key(cell) && earlier[cell] != alive {
                    Err(VerifierFailure::Conflict(cell, source))
                } else {
                    Ok(earlier.insert(cell, alive))
                }
            },
        }
    }
}

/// What a state of a port is called where it causes a conflict.
pub open spec fn state_source(port: Seq<char>, state: Seq<char>) -> Seq<char> {
    "state '"@ + state + "' on port '"@ + port + "'"@
}

/// The needs of the gadget, and of the first `k` ports that the assignment names.
pub open spec fn needs_up_to(gadget: &GadgetPattern, assignment: &PortAssignment, k: nat) -> Result<
    Needs,
    VerifierFailure,
>
    decreases k,
{
    if k == 0 {
        let base = gadget.base_predecessor_literals@;
        with_literals(gadget, Map::empty(), base, base.len(), "base predecessor literal"@)
    } else {
        match needs_up_to(gadget, assignment, (k - 1) as nat) {
            Err(failure) => Err(failure),
            Ok(earlier) => {
                let port_name = assignment.states.key_seq()[k - 1];
                let state_name = assignment.states.value_seq()[k - 1]@;
                let i = port_position(gadget.ports@, port_name);
                if i == gadget.ports@.len() {
                    Err(VerifierFailure::UnknownPort(port_name, gadget.name@))
                } else if !gadget.ports@[i].states@.contains_key(state_name) {
                    Err(VerifierFailure::UnknownState(gadget.ports@[i].name@, state_name))
                } else {
                    let literals = gadget.ports@[i].states@[state_name]@;
                    with_literals(gadget, earlier, literals, literals.len(), state_source(port_name, state_name))
                }
            },
        }
    }
}

/// The cells that the gadget and the states of its ports fix.
pub open spec fn needs_of(gadget: &GadgetPattern, assignment: &PortAssignment) -> Result<Needs, VerifierFailure> {
    needs_up_to(gadget, assignment, assignment.states.key_seq().len())
}

/// A pattern has the cells that are needed alive, and not those that are needed dead.
pub open spec fn meets(live: Set<Cell>, needs: Needs) -> bool {
    forall|cell: Cell| #[trigger] needs.contains_key(cell) ==> live.contains(cell) == needs[cell]
}

/// A predecessor of the gadget's target that meets the needs.
pub open spec fn is_witness(gadget: &GadgetPattern, needs: Needs, live: Set<Cell>) -> bool {
    encoding::is_preimage(live, gadget.target@) && meets(live, needs)
}

/// The gadget allows the needs: some predecessor of its target meets them.
pub open spec fn allows(gadget: &GadgetPattern, needs: Needs) -> bool {
    exists|live: Set<Cell>| is_witness(gadget, needs, live)
}

/// The values that the needs fix, by place.
spec fn encodes(fixed: Seq<Option<bool>>, needs: Needs, w: int, h: int) -> bool {
    &&& fixed.len() == encoding::place_count(w, h)
    &&& forall|cell: Cell| #[trigger] needs.contains_key(cell) ==> encoding::in_domain(cell, w, h)
    &&& forall|v: int| 0 <= v < fixed.len() ==> #[trigger] fixed[v] == (if needs.contains_key(encoding::place_at(v, h)) {
        Some(needs[encoding::place_at(v, h)])
    } else {
        None
    })
}

proof fn lemma_agrees_meets(fixed: Seq<Option<bool>>, needs: Needs, w: int, h: int, model: Seq<bool>)
    requires
        encodes(fixed, needs, w, h),
        model.len() == fixed.len(),
    ensures
        solver::agrees(model, fixed) == meets(encoding::live_of(model, w, h), needs),
{
    let live = encoding::live_of(model, w, h);
    if solver::agrees(model, fixed) {
        assert forall|cell: Cell| #[trigger] needs.contains_key(cell) implies live.contains(cell) == needs[cell] by {
            encoding::lemma_place_index(cell, w, h);
            let v = encoding::place_index(cell, h);
            assert(fixed[v] == Some(needs[cell]));
        }
    }
    if meets(live, needs) {
        assert forall|v: int| 0 <= v < fixed.len() implies (#[trigger] fixed[v] matches Some(value) ==> model[v]
            == value) by {
            encoding::lemma_place_at(v, w, h);
            let cell = encoding::place_at(v, h);
            if needs.contains_key(cell) {
                assert(live.contains(cell) == needs[cell]);
            }
        }
    }
}

/// A pattern that meets the needs does so by its cells in the domain.
proof fn lemma_witness_model(gadget: &GadgetPattern, needs: Needs, live: Set<Cell>, w: int, h: int)
    requires
        gadget.wf(),
        w == gadget.target.width,
        h == gadget.target.height,
        forall|cell: Cell| #[trigger] needs.contains_key(cell) ==> encoding::in_domain(cell, w, h),
    ensures
        is_witness(gadget, needs, encoding::live_of(encoding::model_of(live, w, h), w, h)) == is_witness(gadget, needs, live),
{
    let other = encoding::live_of(encoding::model_of(live, w, h), w, h);
    assert forall|cell: Cell| encoding::in_domain(cell, w, h) implies #[trigger] other.contains(cell) == live.contains(cell) by {
        encoding::lemma_model_of(live, w, h, cell);
    }
    encoding::lemma_preimage_local(other, live, gadget.target@, w, h);
    if meets(live, needs) {
        assert forall|cell: Cell| #[trigger] needs.contains_key(cell) implies other.contains(cell) == needs[cell] by {
        }
    }
    if meets(other, needs) {
        assert forall|cell: Cell| #[trigger] needs.contains_key(cell) implies live.contains(cell) == needs[cell] by {
            assert(encoding::in_domain(cell, w, h));
            assert(other.contains(cell) == needs[cell]);
        }
    }
}

proof fn lemma_with_literals_fails(
    gadget: &GadgetPattern,
    needs: Needs,
    literals: Seq<CellLiteral>,
    j: nat,
    k: nat,
    source: Seq<char>,
)
    requires
        j <= k,
        with_literals(gadget, needs, literals, j, source) is Err,
    ensures
        with_literals(gadget, needs, literals, k, source) == with_literals(gadget, needs, literals, j, source),
    decreases k,
{
    if j < k {
        lemma_with_literals_fails(gadget, needs, literals, j, (k - 1) as nat, source);
    }
}

proof fn lemma_needs_fail(gadget: &GadgetPattern, assignment: &PortAssignment, j: nat, k: nat)
    requires
        j <= k,
        needs_up_to(gadget, assignment, j) is Err,
    ensures
        needs_up_to(gadget, assignment, k) == needs_up_to(gadget, assignment, j),
    decreases k,
{
    if j < k {
        lemma_needs_fail(gadget, assignment, j, (k - 1) as nat);
    }
}

/// A gadget with the clauses that its predecessors satisfy.
struct PreparedGadget<'a> {
    gadget: &'a GadgetPattern,
    clauses: Vec<Vec<i32>>,
    timeout: Option<u64>,
}

impl<'a> PreparedGadget<'a> {
    spec fn wf(&self) -> bool {
        let w = self.gadget.target.width as int;
        let h = self.gadget.target.height as int;
        &&& self.gadget.wf()
        &&& self.gadget.encodable()
        &&& solver::clauses_in_range(solver::clause_seqs(self.clauses@), encoding::place_count(w, h) as nat)
        &&& forall|model: Seq<bool>| #[trigger]
            solver::satisfies(model, solver::clause_seqs(self.clauses@)) <==> encoding::is_preimage(
                encoding::live_of(model, w, h),
                self.gadget.target@,
            )
    }

    fn new(gadget: &'a GadgetPattern, timeout: Option<u64>) -> (prepared: Self)
        requires
            gadget.wf(),
            gadget.encodable(),
        ensures
            prepared.wf(),
            prepared.gadget == gadget,
            prepared.timeout == timeout,
    {
        PreparedGadget { gadget, clauses: predecessor_clauses(&gadget.target), timeout }
    }

    /// Fixes the cells of the literals.
    fn insert_literals(
        &self,
        fixed: &mut Vec<Option<bool>>,
        literals: &Vec<CellLiteral>,
        source: &str,
        Ghost(needs): Ghost<Needs>,
    ) -> (result: Result<(), VerifierError>)
        requires
            self.wf(),
            encodes(
                old(fixed)@,
                needs,
                self.gadget.target.width as int,
                self.gadget.target.height as int,
            ),
        ensures
            match with_literals(self.gadget, needs, literals@, literals@.len(), source@) {
                Ok(after) => result is Ok && encodes(
                    final(fixed)@,
                    after,
                    self.gadget.target.width as int,
                    self.gadget.target.height as int,
                ),
                Err(failure) => result matches Err(error) && error@ == failure,
            },
    {
        let width: usize = self.gadget.target.width;
        let height: usize = self.gadget.target.height;
        let ghost w = width as int;
        let ghost h = height as int;
        let ghost all = literals@;
        let mut k: usize = 0;
        while k < literals.len()
            invariant
                k <= literals@.len(),
                all == literals@,
                self.wf(),
                width == self.gadget.target.width,
                height == self.gadget.target.height,
                w == width,
                h == height,
                with_literals(self.gadget, needs, all, k as nat, source@) is Ok,
                encodes(fixed@, with_literals(self.gadget, needs, all, k as nat, source@)->Ok_0, w, h),
            decreases literals.len() - k,
        {
            let literal: CellLiteral = literals[k];
            let ghost earlier = with_literals(self.gadget, needs, all, k as nat, source@)->Ok_0;
            let ghost cell = literal.coord@;
            match variable_number(literal.coord, width, height) {
                None => {
                    proof {
                        lemma_with_literals_fails(self.gadget, needs, all, (k + 1) as nat, all.len(), source@);
                    }
                    return Err(
                        VerifierError::OutsideDomain { coord: literal.coord, gadget: self.gadget.name.clone() },
                    );
                },
                Some(number) => {
                    proof {
                        encoding::lemma_place_index(cell, w, h);
                    }
                    let v: usize = (number - 1) as usize;
                    assert(fixed@[v as int] == (if earlier.contains_key(cell) {
                        Some(earlier[cell])
                    } else {
                        None
                    }));
                    if let Some(existing) = fixed[v] {
                        if existing != literal.alive {
                            proof {
                                lemma_with_literals_fails(
                                    self.gadget,
                                    needs,
                                    all,
                                    (k + 1) as nat,
                                    all.len(),
                                    source@,
                                );
                            }
                            return Err(
                                VerifierError::Conflict { coord: literal.coord, source: source.to_owned() },
                            );
                        }
                    }
                    let ghost before = fixed@;
                    fixed.set(v, Some(literal.alive));
                    proof {
                        let after = earlier.insert(cell, literal.alive);
                        assert forall|u: int| 0 <= u < fixed@.len() implies #[trigger] fixed@[u] == (
                        if after.contains_key(encoding::place_at(u, h)) {
                            Some(after[encoding::place_at(u, h)])
                        } else {
                            None
                        }) by {
                            encoding::lemma_place_at(u, w, h);
                            if u != v {
                                assert(fixed@[u] == before[u]);
                            }
                        }
                    }
                },
            }
            k += 1;
        }
        Ok(())
    }

    /// The values that the gadget and the states of its ports fix.
    fn collect_assumptions(&self, assignment: &PortAssignment) -> (result: Result<
        Vec<Option<bool>>,
        VerifierError,
    >)
        requires
            self.wf(),
            assignment.wf(),
        ensures
            match needs_of(self.gadget, assignment) {
                Ok(needs) => result matches Ok(fixed) && encodes(
                    fixed@,
                    needs,
                    self.gadget.target.width as int,
                    self.gadget.target.height as int,
                ),
                Err(failure) => result matches Err(error) && error@ == failure,
            },
    {
        let ghost w = self.gadget.target.width as int;
        let ghost h = self.gadget.target.height as int;
        let width: usize = self.gadget.target.width;
        let height: usize = self.gadget.target.height;
        let ghost n = assignment.states.key_seq().len();
        let mut fixed: Vec<Option<bool>> = Vec::new();
        if width > 0 && height > 0 {
            proof {
                assert(w + 2 <= (w + 2) * (h + 2) && h + 2 <= (w + 2) * (h + 2)) by (nonlinear_arith)
                    requires
                        w > 0,
                        h > 0,
                ;
            }
            let total: usize = (width + 2) * (height + 2);
            let mut v: usize = 0;
            while v < total
                invariant
                    v <= total,
                    fixed@.len() == v,
                    forall|u: int| 0 <= u < v ==> #[trigger] fixed@[u] is None,
                decreases total - v,
            {
                fixed.push(None);
                v += 1;
            }
        }
        assert(encodes(fixed@, Map::empty(), w, h));
        match self.insert_literals(
            &mut fixed,
            &self.gadget.base_predecessor_literals,
            "base predecessor literal",
            Ghost(Map::empty()),
        ) {
            Ok(_) => {},
            Err(error) => {
                proof {
                    lemma_needs_fail(self.gadget, assignment, 0, n);
                }
                return Err(error);
            },
        }
        let mut k: usize = 0;
        while k < assignment.states.len()
            invariant
                k <= n,
                n == assignment.states.key_seq().len(),
                self.wf(),
                assignment.wf(),
                w == self.gadget.target.width,
                h == self.gadget.target.height,
                needs_up_to(self.gadget, assignment, k as nat) is Ok,
                encodes(fixed@, needs_up_to(self.gadget, assignment, k as nat)->Ok_0, w, h),
            decreases n - k,
        {
            proof {
                assignment.states.lemma_entries();
            }
            let port_name: &String = assignment.states.key_at(k);
            let state_name: &String = assignment.states.value_at(k);
            let ghost earlier = needs_up_to(self.gadget, assignment, k as nat)->Ok_0;
            let port: &Port = match self.gadget.port(port_name.as_str()) {
                Ok(port) => port,
                Err(error) => {
                    proof {
                        lemma_needs_fail(self.gadget, assignment, (k + 1) as nat, n);
                    }
                    return Err(error);
                },
            };
            let literals: &Vec<CellLiteral> = match port.literals_for_state(state_name.as_str()) {
                Ok(literals) => literals,
                Err(error) => {
                    proof {
                        lemma_needs_fail(self.gadget, assignment, (k + 1) as nat, n);
                    }
                    return Err(error);
                },
            };
            let mut source: String = "state '".to_owned();
            source.append(state_name.as_str());
            source.append("' on port '");
            source.append(port_name.as_str());
            source.append("'");
            match self.insert_literals(&mut fixed, literals, source.as_str(), Ghost(earlier)) {
                Ok(_) => {},
                Err(error) => {
                    proof {
                        lemma_needs_fail(self.gadget, assignment, (k + 1) as nat, n);
                    }
                    return Err(error);
                },
            }
            k += 1;
        }
        Ok(fixed)
    }

    /// Whether some predecessor has the fixed values, if that was known in time.
    fn solvable(&self, fixed: &Vec<Option<bool>>, Ghost(needs): Ghost<Needs>) -> (solvable: Option<bool>)
        requires
            self.wf(),
            encodes(fixed@, needs, self.gadget.target.width as int, self.gadget.target.height as int),
        ensures
            match solvable {
                Some(solvable) => solvable == allows(self.gadget, needs),
                None => self.timeout is Some,
            },
            self.timeout == Some(0u64) ==> solvable is None,
    {
        let ghost w = self.gadget.target.width as int;
        let ghost h = self.gadget.target.height as int;
        match find_model(&self.clauses, fixed, &Deadline::new(self.timeout)) {
            Search::Found(model) => {
                proof {
                    lemma_agrees_meets(fixed@, needs, w, h, model@);
                    assert(is_witness(self.gadget, needs, encoding::live_of(model@, w, h)));
                }
                Some(true)
            },
            Search::Stopped => None,
            Search::Exhausted => {
                proof {
                    if allows(self.gadget, needs) {
                        let live = choose|live: Set<Cell>| is_witness(self.gadget, needs, live);
                        let model = encoding::model_of(live, w, h);
                        lemma_witness_model(self.gadget, needs, live, w, h);
                        lemma_agrees_meets(fixed@, needs, w, h, model);
                        assert(solver::satisfies(model, solver::clause_seqs(self.clauses@)));
                    }
                }
                Some(false)
            },
        }
    }

    fn check_assignment(&self, assignment: &PortAssignment) -> (result: Result<bool, VerifierError>)
        requires
            self.wf(),
            assignment.wf(),
        ensures
            decides(result, self.timeout, self.gadget, assignment),
    {
        match self.collect_assumptions(assignment) {
            Ok(fixed) => {
                let ghost needs = needs_of(self.gadget, assignment)->Ok_0;
                match self.solvable(&fixed, Ghost(needs)) {
                    Some(answer) => Ok(answer),
                    None => Err(VerifierError::TimedOut),
                }
            },
            Err(error) => Err(error),
        }
    }
}

/// A search may have been stopped: there is a time limit, and the failure says so.
pub open spec fn may_stop(timeout: Option<u64>, failure: VerifierFailure) -> bool {
    timeout is Some && failure == VerifierFailure::TimedOut
}

/// The answer to the question whether a gadget allows an assignment. With a time limit the
/// search may be stopped before, and with one of no seconds it always is.
pub open spec fn decides(
    result: Result<bool, VerifierError>,
    timeout: Option<u64>,
    gadget: &GadgetPattern,
    assignment: &PortAssignment,
) -> bool {
    match needs_of(gadget, assignment) {
        Ok(needs) => match result {
            Ok(answer) => answer == allows(gadget, needs) && timeout != Some(0u64),
            Err(error) => may_stop(timeout, error@),
        },
        Err(failure) => result matches Err(error) && error@ == failure,
    }
}

/// A time limit never changes an answer: two searches that come to one give the same. Without a
/// limit, every question that makes sense for the gadget is answered.
pub proof fn law_time_limit_keeps_answers(
    one: Result<bool, VerifierError>,
    one_timeout: Option<u64>,
    other: Result<bool, VerifierError>,
    other_timeout: Option<u64>,
    gadget: &GadgetPattern,
    assignment: &PortAssignment,
)
    requires
        decides(one, one_timeout, gadget, assignment),
        decides(other, other_timeout, gadget, assignment),
    ensures
        one is Ok && other is Ok ==> one == other,
        one_timeout is None && needs_of(gadget, assignment) is Ok ==> one is Ok,
{
}

/// A row of a report: the assignment, and whether the gadget allows it.
pub open spec fn is_check(check: AssignmentCheck, gadget: &GadgetPattern, assignment: &PortAssignment) -> bool {
    &&& check.assignment.wf()
    &&& check.assignment@ == assignment@
    &&& needs_of(gadget, assignment) is Ok
    &&& check.satisfiable == allows(gadget, needs_of(gadget, assignment)->Ok_0)
}

/// The rows of a report for the given assignments.
pub open spec fn are_checks(
    checks: Seq<AssignmentCheck>,
    gadget: &GadgetPattern,
    assignments: Seq<PortAssignment>,
) -> bool {
    &&& checks.len() == assignments.len()
    &&& forall|i: int| 0 <= i < checks.len() ==> is_check(#[trigger] checks[i], gadget, &assignments[i])
}

/// The first of the assignments that makes no sense for the gadget.
pub open spec fn first_failure(gadget: &GadgetPattern, assignments: Seq<PortAssignment>) -> Option<VerifierFailure>
    decreases assignments.len(),
{
    if assignments.len() == 0 {
        None
    } else {
        match first_failure(gadget, assignments.drop_last()) {
            Some(failure) => Some(failure),
            None => match needs_of(gadget, &assignments.last()) {
                Err(failure) => Some(failure),
                Ok(_) => None,
            },
        }
    }
}

proof fn lemma_first_failure(gadget: &GadgetPattern, assignments: Seq<PortAssignment>, j: int)
    requires
        0 <= j <= assignments.len(),
        first_failure(gadget, assignments.take(j)) is Some,
    ensures
        first_failure(gadget, assignments) == first_failure(gadget, assignments.take(j)),
    decreases assignments.len(),
{
    if j == assignments.len() {
        assert(assignments.take(j) =~= assignments);
    } else {
        assert(assignments.drop_last().take(j) =~= assignments.take(j));
        lemma_first_failure(gadget, assignments.drop_last(), j);
    }
}

impl GadgetVerifier {
    /// A verifier with the given configuration.
    pub fn new(config: GadgetVerifierConfig) -> (created: Self)
        ensures
            created.configuration() == config,
    {
        Self { config }
    }

    /// The configuration.
    pub closed spec fn configuration(&self) -> GadgetVerifierConfig {
        self.config
    }

    /// Whether some predecessor of the gadget's target shows the given states. Without a time
    /// limit the search always runs to its answer.
    pub fn check_assignment(
        &self,
        gadget: &GadgetPattern,
        assignment: &PortAssignment,
    ) -> (result: Result<bool, VerifierError>)
        requires
            gadget.wf(),
            gadget.encodable(),
            assignment.wf(),
        ensures
            decides(result, self.configuration().timeout, gadget, assignment),
    {
        PreparedGadget::new(gadget, self.config.timeout).check_assignment(assignment)
    }

    fn check_all(prepared: &PreparedGadget, assignments: &Vec<PortAssignment>) -> (result: Result<
        Vec<AssignmentCheck>,
        VerifierError,
    >)
        requires
            prepared.wf(),
            forall|i: int| 0 <= i < assignments@.len() ==> (#[trigger] assignments@[i]).wf(),
        ensures
            match result {
                Ok(checks) => first_failure(prepared.gadget, assignments@) is None && are_checks(
                    checks@,
                    prepared.gadget,
                    assignments@,
                ),
                Err(error) => first_failure(prepared.gadget, assignments@) == Some(error@) || may_stop(
                    prepared.timeout,
                    error@,
                ),
            },
    {
        let mut checks: Vec<AssignmentCheck> = Vec::new();
        let mut i: usize = 0;
        assert(assignments@.take(0) =~= Seq::<PortAssignment>::empty());
        while i < assignments.len()
            invariant
                i <= assignments@.len(),
                prepared.wf(),
                forall|k: int| 0 <= k < assignments@.len() ==> (#[trigger] assignments@[k]).wf(),
                first_failure(prepared.gadget, assignments@.take(i as int)) is None,
                checks@.len() == i,
                forall|k: int| 0 <= k < i ==> is_check(#[trigger] checks@[k], prepared.gadget, &assignments@[k]),
            decreases assignments.len() - i,
        {
            proof {
                assert(assignments@.take(i + 1).drop_last() =~= assignments@.take(i as int));
                assert(assignments@.take(i + 1).last() == assignments@[i as int]);
            }
            match prepared.check_assignment(&assignments[i]) {
                Ok(satisfiable) => {
                    checks.push(AssignmentCheck { assignment: assignments[i].copy(), satisfiable });
                },
                Err(error) => {
                    proof {
                        if first_failure(prepared.gadget, assignments@.take(i + 1)) is Some {
                            lemma_first_failure(prepared.gadget, assignments@, i + 1);
                        }
                    }
                    return Err(error);
                },
            }
            i += 1;
        }
        assert(assignments@.take(i as int) =~= assignments@);
        Ok(checks)
    }

    /// Whether the gadget allows and forbids what it should.
    pub fn verify_relation(
        &self,
        gadget: &GadgetPattern,
        allowed_assignments: &Vec<PortAssignment>,
        forbidden_assignments: &Vec<PortAssignment>,
    ) -> (result: Result<RelationCheckReport, VerifierError>)
        requires
            gadget.wf(),
            gadget.encodable(),
            forall|i: int| 0 <= i < allowed_assignments@.len() ==> (#[trigger] allowed_assignments@[i]).wf(),
            forall|i: int| 0 <= i < forbidden_assignments@.len() ==> (#[trigger] forbidden_assignments@[i]).wf(),
        ensures
            is_relation_result(
                result,
                self.configuration().timeout,
                gadget,
                allowed_assignments@,
                forbidden_assignments@,
            ),
    {
        let prepared: PreparedGadget = PreparedGadget::new(gadget, self.config.timeout);
        let allowed_results: Vec<AssignmentCheck> = match Self::check_all(&prepared, allowed_assignments) {
            Ok(checks) => checks,
            Err(error) => {
                return Err(error);
            },
        };
        let forbidden_results: Vec<AssignmentCheck> = match Self::check_all(&prepared, forbidden_assignments) {
            Ok(checks) => checks,
            Err(error) => {
                return Err(error);
            },
        };
        let allowed_assignments_hold: bool = all_answers(&allowed_results, true);
        let forbidden_assignments_hold: bool = all_answers(&forbidden_results, false);
        Ok(
            RelationCheckReport {
                allowed_assignments_hold,
                forbidden_assignments_hold,
                allowed_results,
                forbidden_results,
            },
        )
    }
}

/// All checks have the given answer.
pub open spec fn answers_are(checks: Seq<AssignmentCheck>, answer: bool) -> bool {
    forall|i: int| 0 <= i < checks.len() ==> (#[trigger] checks[i]).satisfiable == answer
}

/// The first of the assignments, those to allow before those to forbid, that makes no sense for
/// the gadget.
pub open spec fn relation_failure(
    gadget: &GadgetPattern,
    allowed: Seq<PortAssignment>,
    forbidden: Seq<PortAssignment>,
) -> Option<VerifierFailure> {
    match first_failure(gadget, allowed) {
        Some(failure) => Some(failure),
        None => first_failure(gadget, forbidden),
    }
}

/// The report on what a gadget should allow and forbid, or the first failure; or, with a time
/// limit, that a search was stopped.
pub open spec fn is_relation_result(
    result: Result<RelationCheckReport, VerifierError>,
    timeout: Option<u64>,
    gadget: &GadgetPattern,
    allowed: Seq<PortAssignment>,
    forbidden: Seq<PortAssignment>,
) -> bool {
    match result {
        Err(error) => relation_failure(gadget, allowed, forbidden) == Some(error@) || may_stop(timeout, error@),
        Ok(report) => {
            &&& relation_failure(gadget, allowed, forbidden) is None
            &&& are_checks(report.allowed_results@, gadget, allowed)
            &&& are_checks(report.forbidden_results@, gadget, forbidden)
            &&& report.allowed_assignments_hold == answers_are(report.allowed_results@, true)
            &&& report.forbidden_assignments_hold == answers_are(report.forbidden_results@, false)
        },
    }
}

fn all_answers(checks: &Vec<AssignmentCheck>, answer: bool) -> (all: bool)
    ensures
        all == answers_are(checks@, answer),
{
    let mut i: usize = 0;
    while i < checks.len()
        invariant
            i <= checks@.len(),
            forall|k: int| 0 <= k < i ==> (#[trigger] checks@[k]).satisfiable == answer,
        decreases checks.len() - i,
    {
        if checks[i].satisfiable != answer {
            return false;
        }
        i += 1;
    }
    true
}

/// A pattern shows all cells of a state.
pub open spec fn shows(live: Set<Cell>, literals: Seq<CellLiteral>) -> bool {
    forall|i: int| 0 <= i < literals.len() ==> live.contains((#[trigger] literals[i]).coord@) == literals[i].alive
}

/// State number `i` of a port is the first that a pattern shows.
pub open spec fn shows_first(port: Port, live: Set<Cell>, i: int) -> bool {
    &&& 0 <= i < port.states.key_seq().len()
    &&& shows(live, port.states.value_seq()[i]@)
    &&& forall|j: int| 0 <= j < i ==> !shows(live, (#[trigger] port.states.value_seq()[j])@)
}

/// The name of the first state of a port that a pattern shows.
pub open spec fn shown_state(port: Port, live: Set<Cell>) -> Option<Seq<char>> {
    if exists|i: int| shows_first(port, live, i) {
        Some(port.states.key_seq()[choose|i: int| shows_first(port, live, i)])
    } else {
        None
    }
}

/// A list of optional texts.
pub type Row = Seq<Option<Seq<char>>>;

/// What a pattern shows at the named ports.
pub open spec fn shown_row(gadget: &GadgetPattern, names: Seq<Seq<char>>, live: Set<Cell>) -> Row {
    Seq::new(names.len(), |i: int| shown_state(gadget.ports@[port_position(gadget.ports@, names[i])], live))
}

/// The texts of optional strings.
pub open spec fn row_of(values: Seq<Option<String>>) -> Row {
    Seq::new(
        values.len(),
        |i: int|
            match values[i] {
                Some(value) => Some(value@),
                None => None,
            },
    )
}

/// The order of optional texts: nothing comes first.
pub open spec fn optional_less(a: Option<Seq<char>>, b: Option<Seq<char>>) -> bool {
    match (a, b) {
        (None, Some(_)) => true,
        (Some(x), Some(y)) => text::text_less(x, y),
        _ => false,
    }
}

/// The lexicographic order of rows.
pub open spec fn row_less(a: Row, b: Row) -> bool
    decreases a.len(),
{
    if b.len() == 0 {
        false
    } else if a.len() == 0 {
        true
    } else if a[0] != b[0] {
        optional_less(a[0], b[0])
    } else {
        row_less(a.drop_first(), b.drop_first())
    }
}

proof fn lemma_row_less_transitive(a: Row, b: Row, c: Row)
    requires
        row_less(a, b),
        row_less(b, c),
    ensures
        row_less(a, c),
    decreases a.len(),
{
    if a.len() > 0 && b.len() > 0 && c.len() > 0 {
        if a[0] == b[0] && b[0] == c[0] {
            lemma_row_less_transitive(a.drop_first(), b.drop_first(), c.drop_first());
        } else if a[0] != b[0] && b[0] != c[0] {
            match (a[0], b[0], c[0]) {
                (Some(x), Some(y), Some(z)) => {
                    crate::text::lemma_text_less_transitive(x, y, z);
                    if x == z {
                        crate::text::lemma_text_less_irreflexive(x);
                    }
                },
                _ => {},
            }
        }
    }
}

/// The order of two rows of equal length.
enum RowOrder {
    Before,
    Same,
    After,
}

fn row_order(a: &StrMap<Option<String>>, b: &StrMap<Option<String>>) -> (order: RowOrder)
    requires
        a.wf(),
        b.wf(),
        a.key_seq().len() == b.key_seq().len(),
    ensures
        match order {
            RowOrder::Before => row_less(row_of(a.value_seq()), row_of(b.value_seq())),
            RowOrder::Same => row_of(a.value_seq()) == row_of(b.value_seq()),
            RowOrder::After => row_less(row_of(b.value_seq()), row_of(a.value_seq())),
        },
{
    proof {
        a.lemma_entries();
        b.lemma_entries();
    }
    let ghost left = row_of(a.value_seq());
    let ghost right = row_of(b.value_seq());
    let mut i: usize = 0;
    proof {
        assert(left.skip(0) =~= left);
        assert(right.skip(0) =~= right);
    }
    while i < a.len()
        invariant
            i <= a.key_seq().len(),
            a.wf(),
            b.wf(),
            a.key_seq().len() == b.key_seq().len(),
            a.value_seq().len() == a.key_seq().len(),
            b.value_seq().len() == b.key_seq().len(),
            left == row_of(a.value_seq()),
            right == row_of(b.value_seq()),
            left.take(i as int) == right.take(i as int),
            row_less(left, right) == row_less(left.skip(i as int), right.skip(i as int)),
            row_less(right, left) == row_less(right.skip(i as int), left.skip(i as int)),
        decreases a.key_seq().len() - i,
    {
        let x: &Option<String> = a.value_at(i);
        let y: &Option<String> = b.value_at(i);
        proof {
            assert(left.skip(i as int)[0] == left[i as int]);
            assert(right.skip(i as int)[0] == right[i as int]);
            assert(left.skip(i as int).drop_first() =~= left.skip(i + 1));
            assert(right.skip(i as int).drop_first() =~= right.skip(i + 1));
        }
        match (x, y) {
            (None, Some(_)) => {
                return RowOrder::Before;
            },
            (Some(_), None) => {
                return RowOrder::After;
            },
            (Some(p), Some(q)) => {
                if text_before(p.as_str(), q.as_str()) {
                    proof {
                        crate::text::lemma_text_less_irreflexive(p@);
                    }
                    return RowOrder::Before;
                }
                if text_before(q.as_str(), p.as_str()) {
                    proof {
                        crate::text::lemma_text_less_irreflexive(p@);
                    }
                    return RowOrder::After;
                }
                proof {
                    crate::text::lemma_text_less_total(p@, q@);
                }
            },
            (None, None) => {},
        }
        assert(left.take(i + 1) =~= right.take(i + 1)) by {
            assert(left.take(i + 1) =~= left.take(i as int).push(left[i as int]));
            assert(right.take(i + 1) =~= right.take(i as int).push(right[i as int]));
        }
        i += 1;
    }
    assert(left.take(i as int) =~= left);
    assert(right.take(i as int) =~= right);
    RowOrder::Same
}

/// Every row stands strictly before those that follow it.
pub open spec fn sorted_rows(states: Seq<ProjectedPortState>) -> bool {
    forall|i: int, j: int| #![trigger states[i], states[j]]
        0 <= i < j < states.len() ==> row_less(
            row_of(states[i].states.value_seq()),
            row_of(states[j].states.value_seq()),
        )
}

/// The list holds a state with the given row.
pub open spec fn lists_row(states: Seq<ProjectedPortState>, row: Row) -> bool {
    exists|i: int| 0 <= i < states.len() && row_of((#[trigger] states[i]).states.value_seq()) == row
}

/// Every state names the given ports.
pub open spec fn all_name(states: Seq<ProjectedPortState>, names: Seq<Seq<char>>) -> bool {
    forall|i: int|
        0 <= i < states.len() ==> (#[trigger] states[i]).states.wf() && states[i].states.key_seq() == names
}

/// Puts a state in its place, unless it is listed.
fn insert_state(list: &mut Vec<ProjectedPortState>, state: ProjectedPortState, Ghost(names): Ghost<Seq<Seq<char>>>)
    requires
        all_name(old(list)@, names),
        sorted_rows(old(list)@),
        state.states.wf(),
        state.states.key_seq() == names,
    ensures
        all_name(final(list)@, names),
        sorted_rows(final(list)@),
        forall|row: Row| #[trigger] lists_row(final(list)@, row) <==> lists_row(old(list)@, row) || row == row_of(
            state.states.value_seq(),
        ),
{
    let ghost before = list@;
    let ghost row = row_of(state.states.value_seq());
    let mut i: usize = 0;
    while i < list.len()
        invariant
            i <= list@.len(),
            before == old(list)@,
            list@ == before,
            all_name(before, names),
            sorted_rows(before),
            state.states.wf(),
            state.states.key_seq() == names,
            row == row_of(state.states.value_seq()),
            forall|k: int| 0 <= k < i ==> row_less(row_of((#[trigger] before[k]).states.value_seq()), row),
        decreases list.len() - i,
    {
        assert(before[i as int].states.wf());
        match row_order(&list[i].states, &state.states) {
            RowOrder::Before => {},
            RowOrder::Same => {
                assert(lists_row(before, row));
                return;
            },
            RowOrder::After => {
                list.insert(i, state);
                proof {
                    let after = list@;
                    assert forall|a: int, b: int| #![trigger after[a], after[b]]
                        0 <= a < b < after.len() implies row_less(
                        row_of(after[a].states.value_seq()),
                        row_of(after[b].states.value_seq()),
                    ) by {
                        if a < i && b == i {
                            assert(after[a] == before[a]);
                        } else if a < i && b < i {
                            assert(after[a] == before[a] && after[b] == before[b]);
                        } else if a < i {
                            assert(after[a] == before[a] && after[b] == before[b - 1]);
                        } else if a == i {
                            assert(after[b] == before[b - 1]);
                            if b - 1 > i {
                                lemma_row_less_transitive(
                                    row,
                                    row_of(before[i as int].states.value_seq()),
                                    row_of(before[b - 1].states.value_seq()),
                                );
                            }
                        } else {
                            assert(after[a] == before[a - 1] && after[b] == before[b - 1]);
                        }
                    }
                    assert forall|k: int| 0 <= k < after.len() implies (#[trigger] after[k]).states.wf()
                        && after[k].states.key_seq() == names by {
                        if k < i {
                            assert(after[k] == before[k]);
                        } else if k > i {
                            assert(after[k] == before[k - 1]);
                        }
                    }
                    assert forall|r: Row| #[trigger] lists_row(after, r) <==> lists_row(before, r) || r == row by {
                        if lists_row(before, r) {
                            let k = choose|k: int|
                                0 <= k < before.len() && row_of((#[trigger] before[k]).states.value_seq()) == r;
                            if k < i {
                                assert(after[k] == before[k]);
                            } else {
                                assert(after[k + 1] == before[k]);
                            }
                        }
                        assert(row_of(after[i as int].states.value_seq()) == row);
                        if lists_row(after, r) && r != row {
                            let k = choose|k: int|
                                0 <= k < after.len() && row_of((#[trigger] after[k]).states.value_seq()) == r;
                            if k < i {
                                assert(before[k] == after[k]);
                            } else {
                                assert(before[k - 1] == after[k]);
                            }
                        }
                    }
                }
                return;
            },
        }
        i += 1;
    }
    list.push(state);
    proof {
        let after = list@;
        assert forall|r: Row| #[trigger] lists_row(after, r) <==> lists_row(before, r) || r == row by {
            if lists_row(before, r) {
                let k = choose|k: int|
                    0 <= k < before.len() && row_of((#[trigger] before[k]).states.value_seq()) == r;
                assert(after[k] == before[k]);
            }
            assert(row_of(after[before.len() as int].states.value_seq()) == row);
            if lists_row(after, r) && r != row {
                let k = choose|k: int|
                    0 <= k < after.len() && row_of((#[trigger] after[k]).states.value_seq()) == r;
                assert(before[k] == after[k]);
            }
        }
    }
}

/// All literals of the first states of a port, state by state.
pub open spec fn all_literals(values: Seq<Vec<CellLiteral>>) -> Seq<CellLiteral>
    decreases values.len(),
{
    if values.len() == 0 {
        Seq::empty()
    } else {
        all_literals(values.drop_last()) + values.last()@
    }
}

/// The first literal outside the domain.
pub open spec fn first_outside(literals: Seq<CellLiteral>, w: int, h: int) -> Option<Cell>
    decreases literals.len(),
{
    if literals.len() == 0 {
        None
    } else {
        match first_outside(literals.drop_last(), w, h) {
            Some(cell) => Some(cell),
            None => if encoding::in_domain(literals.last().coord@, w, h) {
                None
            } else {
                Some(literals.last().coord@)
            },
        }
    }
}

/// What is wrong with the first `k` observed ports.
pub open spec fn observed_failure(gadget: &GadgetPattern, names: Seq<Seq<char>>, k: nat) -> Option<VerifierFailure>
    decreases k,
{
    if k == 0 {
        None
    } else {
        match observed_failure(gadget, names, (k - 1) as nat) {
            Some(failure) => Some(failure),
            None => {
                let i = port_position(gadget.ports@, names[k - 1]);
                if i == gadget.ports@.len() {
                    Some(VerifierFailure::UnknownPort(names[k - 1], gadget.name@))
                } else {
                    match first_outside(
                        all_literals(gadget.ports@[i].states.value_seq()),
                        gadget.target.width as int,
                        gadget.target.height as int,
                    ) {
                        Some(cell) => Some(VerifierFailure::NoVariable(cell)),
                        None => None,
                    }
                }
            },
        }
    }
}

proof fn lemma_observed_fails(gadget: &GadgetPattern, names: Seq<Seq<char>>, j: nat, k: nat)
    requires
        j <= k,
        observed_failure(gadget, names, j) is Some,
    ensures
        observed_failure(gadget, names, k) == observed_failure(gadget, names, j),
    decreases k,
{
    if j < k {
        lemma_observed_fails(gadget, names, j, (k - 1) as nat);
    }
}

proof fn lemma_outside_grows(literals: Seq<CellLiteral>, w: int, h: int, j: int)
    requires
        0 <= j <= literals.len(),
        first_outside(literals.take(j), w, h) is Some,
    ensures
        first_outside(literals, w, h) == first_outside(literals.take(j), w, h),
    decreases literals.len(),
{
    if j == literals.len() {
        assert(literals.take(j) =~= literals);
    } else {
        assert(literals.drop_last().take(j) =~= literals.take(j));
        lemma_outside_grows(literals.drop_last(), w, h, j);
    }
}

proof fn lemma_all_literals_prefix(values: Seq<Vec<CellLiteral>>, j: int)
    requires
        0 <= j <= values.len(),
    ensures
        all_literals(values.take(j)).len() <= all_literals(values).len(),
        all_literals(values).take(all_literals(values.take(j)).len() as int) == all_literals(values.take(j)),
    decreases values.len(),
{
    if j == values.len() {
        assert(values.take(j) =~= values);
        assert(all_literals(values).take(all_literals(values).len() as int) =~= all_literals(values));
    } else {
        let rest = values.drop_last();
        assert(rest.take(j) =~= values.take(j));
        lemma_all_literals_prefix(rest, j);
        let n = all_literals(values.take(j)).len() as int;
        assert(all_literals(values).take(n) =~= all_literals(rest).take(n));
    }
}

/// The value at a literal's cell is among the given ones.
spec fn literal_covered(literal: CellLiteral, vars: Seq<usize>, w: int, h: int) -> bool {
    encoding::in_domain(literal.coord@, w, h) && vars.contains(encoding::place_index(literal.coord@, h) as usize)
}

spec fn literals_covered(literals: Seq<CellLiteral>, vars: Seq<usize>, w: int, h: int) -> bool {
    forall|l: int| 0 <= l < literals.len() ==> literal_covered(#[trigger] literals[l], vars, w, h)
}

spec fn port_covered(port: Port, vars: Seq<usize>, w: int, h: int) -> bool {
    forall|s: int|
        0 <= s < port.states.value_seq().len() ==> literals_covered(
            (#[trigger] port.states.value_seq()[s])@,
            vars,
            w,
            h,
        )
}

/// The values that decide which states the named ports show are among the given ones.
spec fn covered(gadget: &GadgetPattern, names: Seq<Seq<char>>, vars: Seq<usize>, w: int, h: int) -> bool {
    forall|n: int|
        0 <= n < names.len() ==> {
            &&& port_position(gadget.ports@, #[trigger] names[n]) < gadget.ports@.len()
            &&& port_covered(gadget.ports@[port_position(gadget.ports@, names[n])], vars, w, h)
        }
}

proof fn lemma_literals_covered_grow(literals: Seq<CellLiteral>, vars: Seq<usize>, v: usize, w: int, h: int)
    requires
        literals_covered(literals, vars, w, h),
    ensures
        literals_covered(literals, vars.push(v), w, h),
{
    assert forall|l: int| 0 <= l < literals.len() implies literal_covered(
        #[trigger] literals[l],
        vars.push(v),
        w,
        h,
    ) by {
        assert(literal_covered(literals[l], vars, w, h));
        let u = encoding::place_index(literals[l].coord@, h) as usize;
        let i = choose|i: int| 0 <= i < vars.len() && vars[i] == u;
        assert(vars.push(v)[i] == u);
    }
}

/// Patterns that agree at the cells of a port show the same state there.
proof fn lemma_same_state(port: Port, a: Set<Cell>, b: Set<Cell>)
    requires
        port.wf(),
        forall|s: int, l: int| #![trigger port.states.value_seq()[s]@[l]]
            0 <= s < port.states.value_seq().len() && 0 <= l < port.states.value_seq()[s]@.len() ==> a.contains(
                port.states.value_seq()[s]@[l].coord@,
            ) == b.contains(port.states.value_seq()[s]@[l].coord@),
    ensures
        shown_state(port, a) == shown_state(port, b),
{
    port.states.lemma_entries();
    let values = port.states.value_seq();
    assert forall|s: int| 0 <= s < values.len() implies shows(a, (#[trigger] values[s])@) == shows(b, values[s]@) by {
        assert forall|l: int| 0 <= l < values[s]@.len() implies a.contains((#[trigger] values[s]@[l]).coord@)
            == b.contains(values[s]@[l].coord@) by {
        }
    }
    assert forall|i: int| shows_first(port, a, i) == shows_first(port, b, i) by {
        if 0 <= i < values.len() {
            assert(shows(a, values[i]@) == shows(b, values[i]@));
            if shows_first(port, a, i) {
                assert forall|j: int| 0 <= j < i implies !shows(b, (#[trigger] values[j])@) by {
                }
            }
            if shows_first(port, b, i) {
                assert forall|j: int| 0 <= j < i implies !shows(a, (#[trigger] values[j])@) by {
                }
            }
        }
    }
    lemma_first_unique(port, a);
    lemma_first_unique(port, b);
    if exists|i: int| shows_first(port, a, i) {
        let i = choose|i: int| shows_first(port, a, i);
        assert(shows_first(port, b, i));
    }
    if exists|i: int| shows_first(port, b, i) {
        let i = choose|i: int| shows_first(port, b, i);
        assert(shows_first(port, a, i));
    }
}

proof fn lemma_first_unique(port: Port, live: Set<Cell>)
    requires
        port.wf(),
    ensures
        forall|i: int| #[trigger]
            shows_first(port, live, i) ==> shown_state(port, live) == Some(port.states.key_seq()[i]),
{
    port.states.lemma_entries();
    assert forall|i: int| #[trigger] shows_first(port, live, i) implies shown_state(port, live) == Some(
        port.states.key_seq()[i],
    ) by {
        let j = choose|j: int| shows_first(port, live, j);
        assert(shows_first(port, live, j));
        if i < j {
            assert(!shows(live, port.states.value_seq()[i]@));
        } else if j < i {
            assert(!shows(live, port.states.value_seq()[j]@));
        }
    }
}

/// Patterns that agree at the covered cells show the same states.
proof fn lemma_same_row(
    gadget: &GadgetPattern,
    names: Seq<Seq<char>>,
    vars: Seq<usize>,
    w: int,
    h: int,
    a: Set<Cell>,
    b: Set<Cell>,
)
    requires
        gadget.wf(),
        covered(gadget, names, vars, w, h),
        forall|cell: Cell|
            encoding::in_domain(cell, w, h) && vars.contains(encoding::place_index(cell, h) as usize) ==> #[trigger] a.contains(cell)
                == b.contains(cell),
    ensures
        shown_row(gadget, names, a) == shown_row(gadget, names, b),
{
    assert forall|n: int| 0 <= n < names.len() implies shown_row(gadget, names, a)[n] == shown_row(
        gadget,
        names,
        b,
    )[n] by {
        let i = port_position(gadget.ports@, names[n]);
        lemma_port_position_bounds(gadget.ports@, names[n]);
        let port = gadget.ports@[i];
        assert(port.wf());
        assert(port_covered(port, vars, w, h));
        assert forall|s: int, l: int| #![trigger port.states.value_seq()[s]@[l]]
            0 <= s < port.states.value_seq().len() && 0 <= l < port.states.value_seq()[s]@.len() implies a.contains(
            port.states.value_seq()[s]@[l].coord@,
        ) == b.contains(port.states.value_seq()[s]@[l].coord@) by {
            assert(literals_covered(port.states.value_seq()[s]@, vars, w, h));
            assert(literal_covered(port.states.value_seq()[s]@[l], vars, w, h));
        }
        lemma_same_state(port, a, b);
    }
    assert(shown_row(gadget, names, a) =~= shown_row(gadget, names, b));
}

pub proof fn lemma_port_position_bounds(ports: Seq<Port>, name: Seq<char>)
    ensures
        0 <= port_position(ports, name) <= ports.len(),
    decreases ports.len(),
{
    if ports.len() > 0 {
        lemma_port_position_bounds(ports.drop_first(), name);
    }
}

/// A model with the fixed values shows the given row.
spec fn reaches(
    prepared: &PreparedGadget,
    fixed: Seq<Option<bool>>,
    names: Seq<Seq<char>>,
    row: Row,
) -> bool {
    exists|model: Seq<bool>|
        solver::agrees(model, fixed) && solver::satisfies(model, solver::clause_seqs(prepared.clauses@)) && #[trigger] shown_row(
            prepared.gadget,
            names,
            encoding::live_of(model, prepared.gadget.target.width as int, prepared.gadget.target.height as int),
        ) == row
}

impl<'a> PreparedGadget<'a> {
    /// Whether a model shows all cells of a state.
    fn model_shows(&self, model: &Vec<bool>, literals: &Vec<CellLiteral>) -> (result: bool)
        requires
            self.wf(),
            model@.len() == encoding::place_count(
                self.gadget.target.width as int,
                self.gadget.target.height as int,
            ),
        ensures
            result == shows(
                encoding::live_of(model@, self.gadget.target.width as int, self.gadget.target.height as int),
                literals@,
            ),
    {
        let ghost w = self.gadget.target.width as int;
        let ghost h = self.gadget.target.height as int;
        let ghost live = encoding::live_of(model@, w, h);
        let mut i: usize = 0;
        while i < literals.len()
            invariant
                i <= literals@.len(),
                self.wf(),
                w == self.gadget.target.width,
                h == self.gadget.target.height,
                live == encoding::live_of(model@, w, h),
                model@.len() == encoding::place_count(w, h),
                forall|k: int| 0 <= k < i ==> live.contains((#[trigger] literals@[k]).coord@) == literals@[k].alive,
            decreases literals.len() - i,
        {
            let alive: bool = match variable_number(
                literals[i].coord,
                self.gadget.target.width,
                self.gadget.target.height,
            ) {
                Some(number) => {
                    proof {
                        encoding::lemma_place_index(literals@[i as int].coord@, w, h);
                    }
                    model[(number - 1) as usize]
                },
                None => false,
            };
            if alive != literals[i].alive {
                return false;
            }
            i += 1;
        }
        true
    }

    /// The name of the first state of a port that a model shows.
    fn model_state(&self, model: &Vec<bool>, port: &Port) -> (name: Option<String>)
        requires
            self.wf(),
            port.wf(),
            model@.len() == encoding::place_count(
                self.gadget.target.width as int,
                self.gadget.target.height as int,
            ),
        ensures
            match name {
                Some(text) => shown_state(
                    *port,
                    encoding::live_of(model@, self.gadget.target.width as int, self.gadget.target.height as int),
                ) == Some(text@),
                None => shown_state(
                    *port,
                    encoding::live_of(model@, self.gadget.target.width as int, self.gadget.target.height as int),
                ) is None,
            },
    {
        let ghost live = encoding::live_of(
            model@,
            self.gadget.target.width as int,
            self.gadget.target.height as int,
        );
        proof {
            port.states.lemma_entries();
            lemma_first_unique(*port, live);
        }
        let mut i: usize = 0;
        while i < port.states.len()
            invariant
                i <= port.states.key_seq().len(),
                port.states.value_seq().len() == port.states.key_seq().len(),
                self.wf(),
                model@.len() == encoding::place_count(
                    self.gadget.target.width as int,
                    self.gadget.target.height as int,
                ),
                live == encoding::live_of(
                    model@,
                    self.gadget.target.width as int,
                    self.gadget.target.height as int,
                ),
                forall|k: int| #[trigger]
                    shows_first(*port, live, k) ==> shown_state(*port, live) == Some(port.states.key_seq()[k]),
                forall|k: int| 0 <= k < i ==> !shows(live, (#[trigger] port.states.value_seq()[k])@),
            decreases port.states.key_seq().len() - i,
        {
            if self.model_shows(model, port.states.value_at(i)) {
                assert(shows_first(*port, live, i as int));
                return Some(port.states.key_at(i).clone());
            }
            i += 1;
        }
        None
    }

    /// What a model shows at the observed ports.
    fn project(&self, model: &Vec<bool>, observed: &Vec<String>, Ghost(names): Ghost<Seq<Seq<char>>>) -> (state:
        ProjectedPortState)
        requires
            self.wf(),
            model@.len() == encoding::place_count(
                self.gadget.target.width as int,
                self.gadget.target.height as int,
            ),
            strmap::is_sorted_list_of(names, circuit::texts(observed@)),
            forall|n: int|
                0 <= n < names.len() ==> port_position(self.gadget.ports@, #[trigger] names[n])
                    < self.gadget.ports@.len(),
        ensures
            state.states.wf(),
            state.states.key_seq() == names,
            row_of(state.states.value_seq()) == shown_row(
                self.gadget,
                names,
                encoding::live_of(model@, self.gadget.target.width as int, self.gadget.target.height as int),
            ),
    {
        let ghost live = encoding::live_of(
            model@,
            self.gadget.target.width as int,
            self.gadget.target.height as int,
        );
        let ghost list = circuit::texts(observed@);
        let mut states: StrMap<Option<String>> = StrMap::new();
        let mut i: usize = 0;
        while i < observed.len()
            invariant
                i <= observed@.len(),
                self.wf(),
                model@.len() == encoding::place_count(
                    self.gadget.target.width as int,
                    self.gadget.target.height as int,
                ),
                live == encoding::live_of(
                    model@,
                    self.gadget.target.width as int,
                    self.gadget.target.height as int,
                ),
                list == circuit::texts(observed@),
                strmap::is_sorted_list_of(names, list),
                forall|n: int|
                    0 <= n < names.len() ==> port_position(self.gadget.ports@, #[trigger] names[n])
                        < self.gadget.ports@.len(),
                states.wf(),
                forall|k: Seq<char>| #[trigger] states@.contains_key(k) <==> list.take(i as int).contains(k),
                forall|k: Seq<char>| #[trigger]
                    states@.contains_key(k) ==> shown_state(
                        self.gadget.ports@[port_position(self.gadget.ports@, k)],
                        live,
                    ) == (match states@[k] {
                        Some(value) => Some(value@),
                        None => None,
                    }),
            decreases observed.len() - i,
        {
            let name: &String = &observed[i];
            let ghost before = states@;
            proof {
                assert(list[i as int] == name@);
                assert(list.contains(name@));
                assert(names.contains(name@));
                let n = choose|n: int| 0 <= n < names.len() && names[n] == name@;
                assert(port_position(self.gadget.ports@, names[n]) < self.gadget.ports@.len());
            }
            let matched: Option<String> = match self.gadget.port(name.as_str()) {
                Ok(port) => self.model_state(model, port),
                Err(_) => None,
            };
            states.insert(name.clone(), matched);
            proof {
                assert forall|k: Seq<char>| #[trigger] states@.contains_key(k) <==> list.take(i + 1).contains(k) by {
                    crate::seqs::lemma_take_contains(list, i as int, k);
                }
                assert forall|k: Seq<char>| #[trigger] states@.contains_key(k) implies shown_state(
                    self.gadget.ports@[port_position(self.gadget.ports@, k)],
                    live,
                ) == (match states@[k] {
                    Some(value) => Some(value@),
                    None => None,
                }) by {
                    if k != name@ {
                        assert(before.contains_key(k));
                    }
                }
            }
            i += 1;
        }
        proof {
            assert(list.take(i as int) =~= list);
            states.lemma_entries();
            assert(strmap::is_sorted_list_of(states.key_seq(), list)) by {
                assert forall|k: Seq<char>| #[trigger] states.key_seq().contains(k) <==> list.contains(k) by {
                    assert(states@.contains_key(k) <==> list.contains(k));
                    assert(states@.dom().contains(k) <==> states.key_seq().to_set().contains(k));
                }
            }
            strmap::lemma_sorted_list(list);
            let row = row_of(states.value_seq());
            assert forall|n: int| 0 <= n < names.len() implies row[n] == shown_row(self.gadget, names, live)[n] by {
                assert(states@.contains_key(states.key_seq()[n]));
            }
            assert(row =~= shown_row(self.gadget, names, live));
        }
        ProjectedPortState { states }
    }

    /// The numbers of the values that decide which states the observed ports show.
    fn observed_values(&self, observed: &Vec<String>) -> (result: Result<Vec<usize>, VerifierError>)
        requires
            self.wf(),
        ensures
            match observed_failure(self.gadget, circuit::texts(observed@), observed@.len()) {
                Some(failure) => result matches Err(error) && error@ == failure,
                None => result matches Ok(vars) && {
                    let w = self.gadget.target.width as int;
                    let h = self.gadget.target.height as int;
                    &&& covered(self.gadget, circuit::texts(observed@), vars@, w, h)
                    &&& forall|k: int| 0 <= k < vars@.len() ==> #[trigger] vars@[k] < encoding::place_count(w, h)
                },
            },
    {
        let ghost w = self.gadget.target.width as int;
        let ghost h = self.gadget.target.height as int;
        let ghost list = circuit::texts(observed@);
        let mut vars: Vec<usize> = Vec::new();
        let mut n: usize = 0;
        while n < observed.len()
            invariant
                n <= observed@.len(),
                list == circuit::texts(observed@),
                self.wf(),
                w == self.gadget.target.width,
                h == self.gadget.target.height,
                observed_failure(self.gadget, list, n as nat) is None,
                covered(self.gadget, list.take(n as int), vars@, w, h),
                forall|k: int| 0 <= k < vars@.len() ==> #[trigger] vars@[k] < encoding::place_count(w, h),
            decreases observed.len() - n,
        {
            assert(list[n as int] == observed@[n as int]@);
            let port: &Port = match self.gadget.port(observed[n].as_str()) {
                Ok(port) => port,
                Err(error) => {
                    proof {
                        lemma_observed_fails(self.gadget, list, (n + 1) as nat, list.len());
                    }
                    return Err(error);
                },
            };
            proof {
                port.states.lemma_entries();
            }
            let ghost values = port.states.value_seq();
            let ghost start = vars@;
            let mut s: usize = 0;
            assert(values.take(0) =~= Seq::<Vec<CellLiteral>>::empty());
            while s < port.states.len()
                invariant
                    s <= port.states.key_seq().len(),
                    n < observed@.len(),
                    list == circuit::texts(observed@),
                    values == port.states.value_seq(),
                    values.len() == port.states.key_seq().len(),
                    self.wf(),
                    w == self.gadget.target.width,
                    h == self.gadget.target.height,
                    port_position(self.gadget.ports@, list[n as int]) < self.gadget.ports@.len(),
                    *port == self.gadget.ports@[port_position(self.gadget.ports@, list[n as int])],
                    observed_failure(self.gadget, list, n as nat) is None,
                    covered(self.gadget, list.take(n as int), vars@, w, h),
                    first_outside(all_literals(values.take(s as int)), w, h) is None,
                    forall|k: int| 0 <= k < s ==> literals_covered((#[trigger] values[k])@, vars@, w, h),
                    forall|k: int| 0 <= k < vars@.len() ==> #[trigger] vars@[k] < encoding::place_count(w, h),
                decreases port.states.key_seq().len() - s,
            {
                let literals: &Vec<CellLiteral> = port.states.value_at(s);
                let ghost flat = all_literals(values.take(s as int));
                proof {
                    assert(values.take(s + 1).drop_last() =~= values.take(s as int));
                    assert(values.take(s + 1).last() == *literals);
                }
                let mut l: usize = 0;
                assert(flat + literals@.take(0) =~= flat);
                while l < literals.len()
                    invariant
                        l <= literals@.len(),
                        s < port.states.key_seq().len(),
                        n < observed@.len(),
                        list == circuit::texts(observed@),
                        values == port.states.value_seq(),
                        values.len() == port.states.key_seq().len(),
                        *literals == values[s as int],
                        flat == all_literals(values.take(s as int)),
                        all_literals(values.take(s + 1)) == flat + literals@,
                        self.wf(),
                        w == self.gadget.target.width,
                        h == self.gadget.target.height,
                        port_position(self.gadget.ports@, list[n as int]) < self.gadget.ports@.len(),
                        *port == self.gadget.ports@[port_position(self.gadget.ports@, list[n as int])],
                        observed_failure(self.gadget, list, n as nat) is None,
                        covered(self.gadget, list.take(n as int), vars@, w, h),
                        first_outside(flat + literals@.take(l as int), w, h) is None,
                        forall|k: int| 0 <= k < s ==> literals_covered((#[trigger] values[k])@, vars@, w, h),
                        literals_covered(literals@.take(l as int), vars@, w, h),
                        forall|k: int| 0 <= k < vars@.len() ==> #[trigger] vars@[k] < encoding::place_count(w, h),
                    decreases literals.len() - l,
                {
                    let literal: CellLiteral = literals[l];
                    let ghost longer = flat + literals@.take(l + 1);
                    proof {
                        assert(longer.drop_last() =~= flat + literals@.take(l as int));
                        assert(longer.last() == literal);
                    }
                    match variable_number(literal.coord, self.gadget.target.width, self.gadget.target.height) {
                        None => {
                            proof {
                                let upto = all_literals(values.take(s + 1));
                                assert(upto.take(longer.len() as int) =~= longer);
                                lemma_outside_grows(upto, w, h, longer.len() as int);
                                lemma_all_literals_prefix(values, s + 1);
                                lemma_outside_grows(all_literals(values), w, h, upto.len() as int);
                                lemma_observed_fails(self.gadget, list, (n + 1) as nat, list.len());
                            }
                            return Err(VerifierError::NoVariable { coord: literal.coord });
                        },
                        Some(number) => {
                            let ghost before = vars@;
                            let v: usize = (number - 1) as usize;
                            vars.push(v);
                            proof {
                                encoding::lemma_place_index(literal.coord@, w, h);
                                assert forall|k: int| 0 <= k < s implies literals_covered(
                                    (#[trigger] values[k])@,
                                    vars@,
                                    w,
                                    h,
                                ) by {
                                    lemma_literals_covered_grow(values[k]@, before, v, w, h);
                                }
                                lemma_literals_covered_grow(literals@.take(l as int), before, v, w, h);
                                assert forall|k: int| 0 <= k < l + 1 implies literal_covered(
                                    #[trigger] literals@.take(l + 1)[k],
                                    vars@,
                                    w,
                                    h,
                                ) by {
                                    if k < l {
                                        assert(literal_covered(literals@.take(l as int)[k], vars@, w, h));
                                    } else {
                                        assert(vars@[before.len() as int] == v);
                                    }
                                }
                                lemma_covered_grow(self.gadget, list.take(n as int), before, v, w, h);
                            }
                        },
                    }
                    l += 1;
                }
                assert(literals@.take(l as int) =~= literals@);
                s += 1;
            }
            proof {
                assert(values.take(s as int) =~= values);
                assert(port_covered(*port, vars@, w, h));
                let longer = list.take(n + 1);
                assert forall|m: int| 0 <= m < longer.len() implies {
                    &&& port_position(self.gadget.ports@, #[trigger] longer[m]) < self.gadget.ports@.len()
                    &&& port_covered(
                        self.gadget.ports@[port_position(self.gadget.ports@, longer[m])],
                        vars@,
                        w,
                        h,
                    )
                } by {
                    if m < n {
                        assert(list.take(n as int)[m] == longer[m]);
                    }
                }
            }
            n += 1;
        }
        assert(list.take(n as int) =~= list);
        Ok(vars)
    }

    /// Lists what the models with the fixed values show at the observed ports. Returns false
    /// where a search was stopped.
    fn explore(
        &self,
        fixed: &Vec<Option<bool>>,
        vars: &Vec<usize>,
        k: usize,
        observed: &Vec<String>,
        list: &mut Vec<ProjectedPortState>,
        Ghost(names): Ghost<Seq<Seq<char>>>,
    ) -> (done: bool)
        requires
            self.wf(),
            fixed@.len() == encoding::place_count(
                self.gadget.target.width as int,
                self.gadget.target.height as int,
            ),
            k <= vars@.len(),
            forall|i: int| 0 <= i < vars@.len() ==> #[trigger] vars@[i] < fixed@.len(),
            forall|i: int| 0 <= i < k ==> fixed@[#[trigger] vars@[i] as int] is Some,
            strmap::is_sorted_list_of(names, circuit::texts(observed@)),
            covered(
                self.gadget,
                names,
                vars@,
                self.gadget.target.width as int,
                self.gadget.target.height as int,
            ),
            all_name(old(list)@, names),
            sorted_rows(old(list)@),
        ensures
            all_name(final(list)@, names),
            sorted_rows(final(list)@),
            !done ==> self.timeout is Some,
            done ==> forall|row: Row| #[trigger]
                lists_row(final(list)@, row) <==> lists_row(old(list)@, row) || reaches(
                    self,
                    fixed@,
                    names,
                    row,
                ),
        decreases vars@.len() - k,
    {
        let ghost w = self.gadget.target.width as int;
        let ghost h = self.gadget.target.height as int;
        let ghost all = solver::clause_seqs(self.clauses@);
        let ghost start = list@;
        let model: Vec<bool> = match find_model(&self.clauses, fixed, &Deadline::new(self.timeout)) {
            Search::Found(model) => model,
            Search::Exhausted => {
                return true;
            },
            Search::Stopped => {
                return false;
            },
        };
        if k == vars.len() {
            let state: ProjectedPortState = self.project(&model, observed, Ghost(names));
            let ghost found = row_of(state.states.value_seq());
            insert_state(list, state, Ghost(names));
            proof {
                assert forall|row: Row| #[trigger]
                    lists_row(list@, row) <==> lists_row(start, row) || reaches(self, fixed@, names, row) by {
                    assert(reaches(self, fixed@, names, found)) by {
                        assert(shown_row(self.gadget, names, encoding::live_of(model@, w, h)) == found);
                    }
                    if reaches(self, fixed@, names, row) {
                        let other = choose|other: Seq<bool>|
                            solver::agrees(other, fixed@) && solver::satisfies(other, all) && #[trigger] shown_row(
                                self.gadget,
                                names,
                                encoding::live_of(other, w, h),
                            ) == row;
                        let a = encoding::live_of(other, w, h);
                        let b = encoding::live_of(model@, w, h);
                        assert forall|cell: Cell|
                            encoding::in_domain(cell, w, h) && vars@.contains(encoding::place_index(cell, h) as usize) implies
                            #[trigger] a.contains(cell) == b.contains(cell) by {
                            encoding::lemma_place_index(cell, w, h);
                            let v = encoding::place_index(cell, h) as usize;
                            let i = choose|i: int| 0 <= i < vars@.len() && vars@[i] == v;
                            assert(fixed@[vars@[i] as int] is Some);
                        }
                        lemma_same_row(self.gadget, names, vars@, w, h, a, b);
                    }
                }
            }
            return true;
        }
        let v: usize = vars[k];
        if fixed[v].is_some() {
            return self.explore(fixed, vars, k + 1, observed, list, Ghost(names));
        }
        let mut high: Vec<Option<bool>> = copy_values(fixed);
        high.set(v, Some(true));
        let mut low: Vec<Option<bool>> = copy_values(fixed);
        low.set(v, Some(false));
        proof {
            assert forall|i: int| 0 <= i < k + 1 implies high@[#[trigger] vars@[i] as int] is Some by {
                if i < k {
                    assert(fixed@[vars@[i] as int] is Some);
                }
            }
            assert forall|i: int| 0 <= i < k + 1 implies low@[#[trigger] vars@[i] as int] is Some by {
                if i < k {
                    assert(fixed@[vars@[i] as int] is Some);
                }
            }
        }
        if !self.explore(&high, vars, k + 1, observed, list, Ghost(names)) {
            return false;
        }
        let ghost middle = list@;
        if !self.explore(&low, vars, k + 1, observed, list, Ghost(names)) {
            return false;
        }
        proof {
            assert forall|model: Seq<bool>| #[trigger]
                solver::agrees(model, fixed@) <==> solver::agrees(model, high@) || solver::agrees(model, low@) by {
                lemma_split_agrees(model, fixed@, v as int);
            }
            assert forall|row: Row| #[trigger]
                lists_row(list@, row) <==> lists_row(start, row) || reaches(self, fixed@, names, row) by {
                assert(lists_row(middle, row) <==> lists_row(start, row) || reaches(self, high@, names, row));
                if reaches(self, fixed@, names, row) {
                    let other = choose|other: Seq<bool>|
                        solver::agrees(other, fixed@) && solver::satisfies(other, all) && #[trigger] shown_row(
                            self.gadget,
                            names,
                            encoding::live_of(other, w, h),
                        ) == row;
                    assert(solver::agrees(other, high@) || solver::agrees(other, low@));
                    assert(shown_row(self.gadget, names, encoding::live_of(other, w, h)) == row);
                }
                if reaches(self, high@, names, row) {
                    let other = choose|other: Seq<bool>|
                        solver::agrees(other, high@) && solver::satisfies(other, all) && #[trigger] shown_row(
                            self.gadget,
                            names,
                            encoding::live_of(other, w, h),
                        ) == row;
                    assert(solver::agrees(other, fixed@));
                    assert(shown_row(self.gadget, names, encoding::live_of(other, w, h)) == row);
                }
                if reaches(self, low@, names, row) {
                    let other = choose|other: Seq<bool>|
                        solver::agrees(other, low@) && solver::satisfies(other, all) && #[trigger] shown_row(
                            self.gadget,
                            names,
                            encoding::live_of(other, w, h),
                        ) == row;
                    assert(solver::agrees(other, fixed@));
                    assert(shown_row(self.gadget, names, encoding::live_of(other, w, h)) == row);
                }
            }
        }
        true
    }

    fn enumerate_projected_port_states(
        &self,
        fixed_assignment: &PortAssignment,
        observed_ports: &Vec<String>,
    ) -> (result: Result<Vec<ProjectedPortState>, VerifierError>)
        requires
            self.wf(),
            fixed_assignment.wf(),
        ensures
            is_projection_result(
                result,
                self.timeout,
                self.gadget,
                fixed_assignment,
                circuit::texts(observed_ports@),
            ),
    {
        let ghost w = self.gadget.target.width as int;
        let ghost h = self.gadget.target.height as int;
        let ghost all = circuit::texts(observed_ports@);
        let ghost names = strmap::sorted_list(all);
        proof {
            strmap::lemma_sorted_list(all);
        }
        let fixed: Vec<Option<bool>> = match self.collect_assumptions(fixed_assignment) {
            Ok(fixed) => fixed,
            Err(error) => {
                return Err(error);
            },
        };
        let vars: Vec<usize> = match self.observed_values(observed_ports) {
            Ok(vars) => vars,
            Err(error) => {
                return Err(error);
            },
        };
        let mut list: Vec<ProjectedPortState> = Vec::new();
        let ghost needs = needs_of(self.gadget, fixed_assignment)->Ok_0;
        proof {
            assert forall|n: int| 0 <= n < names.len() implies {
                &&& port_position(self.gadget.ports@, #[trigger] names[n]) < self.gadget.ports@.len()
                &&& port_covered(self.gadget.ports@[port_position(self.gadget.ports@, names[n])], vars@, w, h)
            } by {
                assert(names.contains(names[n]));
                let i = choose|i: int| 0 <= i < all.len() && all[i] == names[n];
                assert(port_covered(self.gadget.ports@[port_position(self.gadget.ports@, all[i])], vars@, w, h));
            }
        }
        if !self.explore(&fixed, &vars, 0, observed_ports, &mut list, Ghost(names)) {
            return Err(VerifierError::TimedOut);
        }
        proof {
            assert forall|row: Row| #[trigger] lists_row(list@, row) <==> can_show(self.gadget, needs, names, row) by {
                assert(!lists_row(Seq::<ProjectedPortState>::empty(), row));
                if reaches(self, fixed@, names, row) {
                    let model = choose|model: Seq<bool>|
                        solver::agrees(model, fixed@) && solver::satisfies(model, solver::clause_seqs(self.clauses@))
                            && #[trigger] shown_row(self.gadget, names, encoding::live_of(model, w, h)) == row;
                    lemma_agrees_meets(fixed@, needs, w, h, model);
                    assert(is_witness(self.gadget, needs, encoding::live_of(model, w, h)));
                }
                if can_show(self.gadget, needs, names, row) {
                    let live = choose|live: Set<Cell>|
                        #[trigger] is_witness(self.gadget, needs, live) && shown_row(self.gadget, names, live)
                            == row;
                    let model = encoding::model_of(live, w, h);
                    lemma_witness_model(self.gadget, needs, live, w, h);
                    lemma_agrees_meets(fixed@, needs, w, h, model);
                    assert forall|cell: Cell|
                        encoding::in_domain(cell, w, h) && vars@.contains(encoding::place_index(cell, h) as usize) implies
                        #[trigger] encoding::live_of(model, w, h).contains(cell) == live.contains(cell) by {
                        encoding::lemma_model_of(live, w, h, cell);
                    }
                    lemma_same_row(self.gadget, names, vars@, w, h, encoding::live_of(model, w, h), live);
                    assert(shown_row(self.gadget, names, encoding::live_of(model, w, h)) == row);
                }
            }
        }
        Ok(list)
    }
}

proof fn lemma_covered_grow(
    gadget: &GadgetPattern,
    names: Seq<Seq<char>>,
    vars: Seq<usize>,
    v: usize,
    w: int,
    h: int,
)
    requires
        covered(gadget, names, vars, w, h),
    ensures
        covered(gadget, names, vars.push(v), w, h),
{
    assert forall|n: int| 0 <= n < names.len() implies {
        &&& port_position(gadget.ports@, #[trigger] names[n]) < gadget.ports@.len()
        &&& port_covered(gadget.ports@[port_position(gadget.ports@, names[n])], vars.push(v), w, h)
    } by {
        let port = gadget.ports@[port_position(gadget.ports@, names[n])];
        assert(port_covered(port, vars, w, h));
        assert forall|s: int| 0 <= s < port.states.value_seq().len() implies literals_covered(
            (#[trigger] port.states.value_seq()[s])@,
            vars.push(v),
            w,
            h,
        ) by {
            lemma_literals_covered_grow(port.states.value_seq()[s]@, vars, v, w, h);
        }
    }
}

proof fn lemma_split_agrees(model: Seq<bool>, fixed: Seq<Option<bool>>, v: int)
    requires
        0 <= v < fixed.len(),
        fixed[v] is None,
    ensures
        solver::agrees(model, fixed) <==> solver::agrees(model, fixed.update(v, Some(true))) || solver::agrees(
            model,
            fixed.update(v, Some(false)),
        ),
{
    let high = fixed.update(v, Some(true));
    let low = fixed.update(v, Some(false));
    if solver::agrees(model, high) {
        assert forall|u: int| 0 <= u < fixed.len() implies (#[trigger] fixed[u] matches Some(value) ==> model[u]
            == value) by {
            if u != v {
                assert(high[u] == fixed[u]);
            }
        }
    }
    if solver::agrees(model, low) {
        assert forall|u: int| 0 <= u < fixed.len() implies (#[trigger] fixed[u] matches Some(value) ==> model[u]
            == value) by {
            if u != v {
                assert(low[u] == fixed[u]);
            }
        }
    }
}

/// Some predecessor that meets the needs shows the given row at the named ports.
pub open spec fn can_show(gadget: &GadgetPattern, needs: Needs, names: Seq<Seq<char>>, row: Row) -> bool {
    exists|live: Set<Cell>| #[trigger] is_witness(gadget, needs, live) && shown_row(gadget, names, live) == row
}

/// All that the predecessors of a gadget show at the observed ports, in ascending order
/// and each once, or what is wrong with the question; or, with a time limit, that a search
/// was stopped.
pub open spec fn is_projection_result(
    result: Result<Vec<ProjectedPortState>, VerifierError>,
    timeout: Option<u64>,
    gadget: &GadgetPattern,
    fixed_assignment: &PortAssignment,
    observed: Seq<Seq<char>>,
) -> bool {
    match (needs_of(gadget, fixed_assignment), observed_failure(gadget, observed, observed.len())) {
        (Err(failure), _) => result matches Err(error) && error@ == failure,
        (Ok(_), Some(failure)) => result matches Err(error) && error@ == failure,
        (Ok(needs), None) => match result {
            Ok(list) => {
                &&& all_name(list@, strmap::sorted_list(observed))
                &&& sorted_rows(list@)
                &&& forall|row: Row| #[trigger] lists_row(list@, row) <==> can_show(
                    gadget,
                    needs,
                    strmap::sorted_list(observed),
                    row,
                )
            },
            Err(error) => may_stop(timeout, error@),
        },
    }
}

/// A state has a name at every one of the given ports.
pub open spec fn all_named(state: ProjectedPortState, ports: Seq<Seq<char>>) -> bool {
    forall|i: int|
        0 <= i < ports.len() ==> state.states@.contains_key(#[trigger] ports[i]) && state.states@[ports[i]] is Some
}

/// The check whether the outputs land in named states; or, with a time limit, that a search
/// was stopped.
pub open spec fn is_charging_result(
    result: Result<ChargingCheck, VerifierError>,
    timeout: Option<u64>,
    gadget: &GadgetPattern,
    fixed_assignment: &PortAssignment,
    outputs: Seq<Seq<char>>,
) -> bool {
    match (needs_of(gadget, fixed_assignment), observed_failure(gadget, outputs, outputs.len())) {
        (Err(failure), _) => result matches Err(error) && error@ == failure,
        (Ok(_), Some(failure)) => result matches Err(error) && error@ == failure,
        (Ok(_), None) => match result {
            Ok(check) => {
                &&& check.fixed_assignment.wf()
                &&& check.fixed_assignment@ == fixed_assignment@
                &&& circuit::texts(check.output_ports@) == outputs
                &&& is_projection_result(Ok(check.observed_outputs), timeout, gadget, fixed_assignment, outputs)
                &&& check.all_outputs_are_named_states == (forall|i: int|
                    0 <= i < check.observed_outputs@.len() ==> all_named(
                        #[trigger] check.observed_outputs@[i],
                        outputs,
                    ))
            },
            Err(error) => may_stop(timeout, error@),
        },
    }
}

/// A copy of a list of strings.
pub(crate) fn copy_names(names: &Vec<String>) -> (copy: Vec<String>)
    ensures
        circuit::texts(copy@) == circuit::texts(names@),
{
    let mut copy: Vec<String> = Vec::new();
    let mut i: usize = 0;
    let ghost all = circuit::texts(names@);
    assert(circuit::texts(copy@) =~= all.take(0));
    while i < names.len()
        invariant
            i <= names@.len(),
            all == circuit::texts(names@),
            circuit::texts(copy@) == all.take(i as int),
        decreases names.len() - i,
    {
        let ghost before = copy@;
        copy.push(names[i].clone());
        assert(circuit::texts(copy@) =~= circuit::texts(before).push(all[i as int]));
        assert(circuit::texts(copy@) =~= all.take(i + 1));
        i += 1;
    }
    assert(all.take(i as int) =~= all);
    copy
}

impl ProjectedPortState {
    fn has_names(&self, ports: &Vec<String>) -> (result: bool)
        requires
            self.states.wf(),
        ensures
            result == all_named(*self, circuit::texts(ports@)),
    {
        let ghost all = circuit::texts(ports@);
        let mut i: usize = 0;
        while i < ports.len()
            invariant
                i <= ports@.len(),
                all == circuit::texts(ports@),
                self.states.wf(),
                forall|k: int|
                    0 <= k < i ==> self.states@.contains_key(#[trigger] all[k]) && self.states@[all[k]] is Some,
            decreases ports.len() - i,
        {
            assert(all[i as int] == ports@[i as int]@);
            let named: bool = match self.states.get(ports[i].as_str()) {
                Some(state) => state.is_some(),
                None => false,
            };
            if !named {
                return false;
            }
            i += 1;
        }
        true
    }
}

/// The states that are chosen for a port: all that it has where none are given.
pub open spec fn chosen_states(port: Port, states: Seq<Seq<char>>) -> Seq<Seq<char>> {
    if states.len() == 0 {
        port.states.key_seq()
    } else {
        states
    }
}

/// The first of the states that the port lacks.
pub open spec fn first_unknown_state(port: Port, states: Seq<Seq<char>>) -> Option<Seq<char>>
    decreases states.len(),
{
    if states.len() == 0 {
        None
    } else {
        match first_unknown_state(port, states.drop_last()) {
            Some(state) => Some(state),
            None => if port.states@.contains_key(states.last()) {
                None
            } else {
                Some(states.last())
            },
        }
    }
}

proof fn lemma_first_unknown(port: Port, states: Seq<Seq<char>>, j: int)
    requires
        0 <= j <= states.len(),
        first_unknown_state(port, states.take(j)) is Some,
    ensures
        first_unknown_state(port, states) == first_unknown_state(port, states.take(j)),
    decreases states.len(),
{
    if j == states.len() {
        assert(states.take(j) =~= states);
    } else {
        assert(states.drop_last().take(j) =~= states.take(j));
        lemma_first_unknown(port, states.drop_last(), j);
    }
}

/// What is wrong with the first `k` entries of a choice of states.
pub open spec fn choice_failure(
    gadget: &GadgetPattern,
    names: Seq<Seq<char>>,
    states: Seq<Vec<String>>,
    k: nat,
) -> Option<VerifierFailure>
    decreases k,
{
    if k == 0 {
        None
    } else {
        match choice_failure(gadget, names, states, (k - 1) as nat) {
            Some(failure) => Some(failure),
            None => {
                let i = port_position(gadget.ports@, names[k - 1]);
                if i == gadget.ports@.len() {
                    Some(VerifierFailure::UnknownPort(names[k - 1], gadget.name@))
                } else {
                    match first_unknown_state(gadget.ports@[i], circuit::texts(states[k - 1]@)) {
                        Some(state) => Some(VerifierFailure::UnknownState(gadget.ports@[i].name@, state)),
                        None => None,
                    }
                }
            },
        }
    }
}

proof fn lemma_choice_fails(
    gadget: &GadgetPattern,
    names: Seq<Seq<char>>,
    states: Seq<Vec<String>>,
    j: nat,
    k: nat,
)
    requires
        j <= k,
        choice_failure(gadget, names, states, j) is Some,
    ensures
        choice_failure(gadget, names, states, k) == choice_failure(gadget, names, states, j),
    decreases k,
{
    if j < k {
        lemma_choice_fails(gadget, names, states, j, (k - 1) as nat);
    }
}

/// Each of the first `n` assignments of a list with each of the first `m` states of a port.
pub open spec fn extended(
    list: Seq<Map<Seq<char>, Seq<char>>>,
    name: Seq<char>,
    states: Seq<Seq<char>>,
    n: nat,
) -> Seq<Map<Seq<char>, Seq<char>>>
    decreases n,
{
    if n == 0 {
        Seq::empty()
    } else {
        extended(list, name, states, (n - 1) as nat) + Seq::new(
            states.len(),
            |s: int| list[n - 1].insert(name, states[s]),
        )
    }
}

/// All ways to choose one of the chosen states for each of the first `k` ports; the
/// choice for the last port changes fastest.
pub open spec fn products(
    gadget: &GadgetPattern,
    names: Seq<Seq<char>>,
    states: Seq<Vec<String>>,
    k: nat,
) -> Seq<Map<Seq<char>, Seq<char>>>
    decreases k,
{
    if k == 0 {
        seq![Map::empty()]
    } else {
        let earlier = products(gadget, names, states, (k - 1) as nat);
        let port = gadget.ports@[port_position(gadget.ports@, names[k - 1])];
        extended(earlier, names[k - 1], chosen_states(port, circuit::texts(states[k - 1]@)), earlier.len())
    }
}

/// The assignments as maps.
pub open spec fn assignment_maps(list: Seq<PortAssignment>) -> Seq<Map<Seq<char>, Seq<char>>> {
    Seq::new(list.len(), |i: int| list[i]@)
}

/// Every assignment is valid.
pub open spec fn assignments_wf(list: Seq<PortAssignment>) -> bool {
    forall|i: int| 0 <= i < list.len() ==> (#[trigger] list[i]).wf()
}

/// Each assignment of a list with each state of a port.
fn extend_assignments(list: &Vec<PortAssignment>, name: &String, states: &Vec<String>) -> (longer: Vec<
    PortAssignment,
>)
    requires
        assignments_wf(list@),
    ensures
        assignments_wf(longer@),
        assignment_maps(longer@) == extended(
            assignment_maps(list@),
            name@,
            circuit::texts(states@),
            list@.len(),
        ),
{
    let ghost maps = assignment_maps(list@);
    let ghost all = circuit::texts(states@);
    let mut longer: Vec<PortAssignment> = Vec::new();
    let mut i: usize = 0;
    assert(assignment_maps(longer@) =~= Seq::<Map<Seq<char>, Seq<char>>>::empty());
    while i < list.len()
        invariant
            i <= list@.len(),
            maps == assignment_maps(list@),
            all == circuit::texts(states@),
            assignments_wf(list@),
            assignments_wf(longer@),
            assignment_maps(longer@) == extended(maps, name@, all, i as nat),
        decreases list.len() - i,
    {
        let ghost start = assignment_maps(longer@);
        let ghost block = Seq::new(all.len(), |s: int| maps[i as int].insert(name@, all[s]));
        let mut s: usize = 0;
        assert(start + block.take(0) =~= start);
        while s < states.len()
            invariant
                s <= states@.len(),
                i < list@.len(),
                maps == assignment_maps(list@),
                all == circuit::texts(states@),
                assignments_wf(list@),
                assignments_wf(longer@),
                block == Seq::new(all.len(), |s: int| maps[i as int].insert(name@, all[s])),
                assignment_maps(longer@) == start + block.take(s as int),
            decreases states.len() - s,
        {
            let ghost before = longer@;
            assert(list@[i as int].wf());
            let next: PortAssignment = list[i].copy().with_state(name.as_str(), states[s].as_str());
            proof {
                assert(maps[i as int] == list@[i as int]@);
                assert(all[s as int] == states@[s as int]@);
                assert(next@ == block[s as int]);
            }
            longer.push(next);
            proof {
                assert(assignment_maps(longer@) =~= assignment_maps(before).push(next@));
                assert(block.take(s + 1) =~= block.take(s as int).push(block[s as int]));
                assert(start + block.take(s + 1) =~= (start + block.take(s as int)).push(block[s as int]));
            }
            s += 1;
        }
        assert(block.take(s as int) =~= block);
        i += 1;
    }
    longer
}

impl GadgetVerifier {
    /// All that the predecessors of a gadget can show at the observed ports.
    pub fn enumerate_projected_port_states(
        &self,
        gadget: &GadgetPattern,
        fixed_assignment: &PortAssignment,
        observed_ports: &Vec<String>,
    ) -> (result: Result<Vec<ProjectedPortState>, VerifierError>)
        requires
            gadget.wf(),
            gadget.encodable(),
            fixed_assignment.wf(),
        ensures
            is_projection_result(
                result,
                self.configuration().timeout,
                gadget,
                fixed_assignment,
                circuit::texts(observed_ports@),
            ),
    {
        PreparedGadget::new(gadget, self.config.timeout).enumerate_projected_port_states(fixed_assignment, observed_ports)
    }

    /// Whether every predecessor with the fixed states shows named states at the outputs.
    pub fn verify_charging_rule(
        &self,
        gadget: &GadgetPattern,
        fixed_assignment: &PortAssignment,
        output_ports: &Vec<String>,
    ) -> (result: Result<ChargingCheck, VerifierError>)
        requires
            gadget.wf(),
            gadget.encodable(),
            fixed_assignment.wf(),
        ensures
            is_charging_result(
                result,
                self.configuration().timeout,
                gadget,
                fixed_assignment,
                circuit::texts(output_ports@),
            ),
    {
        let observed_outputs: Vec<ProjectedPortState> = match self.enumerate_projected_port_states(
            gadget,
            fixed_assignment,
            output_ports,
        ) {
            Ok(list) => list,
            Err(error) => {
                return Err(error);
            },
        };
        let ghost outputs = circuit::texts(output_ports@);
        let mut all_outputs_are_named_states: bool = true;
        let mut i: usize = 0;
        while i < observed_outputs.len()
            invariant
                i <= observed_outputs@.len(),
                outputs == circuit::texts(output_ports@),
                all_name(observed_outputs@, strmap::sorted_list(outputs)),
                all_outputs_are_named_states == (forall|k: int|
                    0 <= k < i ==> all_named(#[trigger] observed_outputs@[k], outputs)),
            decreases observed_outputs.len() - i,
        {
            assert(observed_outputs@[i as int].states.wf());
            if !observed_outputs[i].has_names(output_ports) {
                all_outputs_are_named_states = false;
            }
            i += 1;
        }
        Ok(
            ChargingCheck {
                fixed_assignment: fixed_assignment.copy(),
                output_ports: copy_names(output_ports),
                all_outputs_are_named_states,
                observed_outputs,
            },
        )
    }

    /// All ways to choose a state for each port that is given; an empty choice stands for
    /// all states of the port.
    pub fn enumerate_assignments(
        &self,
        gadget: &GadgetPattern,
        states_by_port: &StrMap<Vec<String>>,
    ) -> (result: Result<Vec<PortAssignment>, VerifierError>)
        requires
            gadget.wf(),
            states_by_port.wf(),
        ensures
            match choice_failure(
                gadget,
                states_by_port.key_seq(),
                states_by_port.value_seq(),
                states_by_port.key_seq().len(),
            ) {
                Some(failure) => result matches Err(error) && error@ == failure,
                None => result matches Ok(list) && assignments_wf(list@) && assignment_maps(list@) == products(
                    gadget,
                    states_by_port.key_seq(),
                    states_by_port.value_seq(),
                    states_by_port.key_seq().len(),
                ),
            },
    {
        let ghost names = states_by_port.key_seq();
        let ghost values = states_by_port.value_seq();
        proof {
            states_by_port.lemma_entries();
        }
        let mut list: Vec<PortAssignment> = Vec::new();
        list.push(PortAssignment::new());
        assert(assignment_maps(list@) =~= products(gadget, names, values, 0));
        let mut k: usize = 0;
        while k < states_by_port.len()
            invariant
                k <= names.len(),
                names == states_by_port.key_seq(),
                values == states_by_port.value_seq(),
                values.len() == names.len(),
                gadget.wf(),
                choice_failure(gadget, names, values, k as nat) is None,
                assignments_wf(list@),
                assignment_maps(list@) == products(gadget, names, values, k as nat),
            decreases names.len() - k,
        {
            let name: &String = states_by_port.key_at(k);
            let states: &Vec<String> = states_by_port.value_at(k);
            let port: &Port = match gadget.port(name.as_str()) {
                Ok(port) => port,
                Err(error) => {
                    proof {
                        lemma_choice_fails(gadget, names, values, (k + 1) as nat, names.len());
                    }
                    return Err(error);
                },
            };
            let ghost given = circuit::texts(states@);
            let mut s: usize = 0;
            assert(given.take(0) =~= Seq::<Seq<char>>::empty());
            while s < states.len()
                invariant
                    s <= states@.len(),
                    k < names.len(),
                    names == states_by_port.key_seq(),
                    values == states_by_port.value_seq(),
                    *states == values[k as int],
                    given == circuit::texts(states@),
                    port.wf(),
                    port_position(gadget.ports@, names[k as int]) < gadget.ports@.len(),
                    *port == gadget.ports@[port_position(gadget.ports@, names[k as int])],
                    choice_failure(gadget, names, values, k as nat) is None,
                    first_unknown_state(*port, given.take(s as int)) is None,
                decreases states.len() - s,
            {
                proof {
                    assert(given.take(s + 1).drop_last() =~= given.take(s as int));
                    assert(given.take(s + 1).last() == states@[s as int]@);
                }
                match port.literals_for_state(states[s].as_str()) {
                    Ok(_) => {},
                    Err(error) => {
                        proof {
                            lemma_first_unknown(*port, given, s + 1);
                            lemma_choice_fails(gadget, names, values, (k + 1) as nat, names.len());
                        }
                        return Err(error);
                    },
                }
                s += 1;
            }
            assert(given.take(s as int) =~= given);
            if states.len() == 0 {
                let own: Vec<String> = port.state_names();
                list = extend_assignments(&list, name, &own);
            } else {
                list = extend_assignments(&list, name, states);
            }
            k += 1;
        }
        Ok(list)
    }
}

} // verus!
