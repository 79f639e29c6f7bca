//! Boolean formulas in conjunctive normal form, and the circuits built from them.

use crate::strmap::StrMap;
use crate::text::same_text;
use crate::text;
use vstd::prelude::*;

verus! {

/// The position of a node in its circuit.
#[derive(Debug, Clone, Copy, PartialEq, Eq, PartialOrd, Ord, Hash, Structural)]
pub struct NodeId(pub usize);

/// What a literal says: a variable's name, and whether it is negated.
pub struct LiteralModel {
    pub variable: Seq<char>,
    pub negated: bool,
}

/// A formula as the sequence of its clauses.
pub type CnfModel = Seq<Seq<LiteralModel>>;

/// A variable or its negation.
#[derive(Debug, Clone, PartialEq, Eq)]
pub struct Literal {
    pub variable: String,
    pub negated: bool,
}

impl View for Literal {
    type V = LiteralModel;

    open spec fn view(&self) -> LiteralModel {
        LiteralModel { variable: self.variable@, negated: self.negated }
    }
}

impl Literal {
    /// The literal that holds where the variable is true.
    pub fn positive(variable: &str) -> (literal: Self)
        ensures
            literal@ == (LiteralModel { variable: variable@, negated: false }),
    {
        Self { variable: variable.to_owned(), negated: false }
    }

    /// The literal that holds where the variable is false.
    pub fn negative(variable: &str) -> (literal: Self)
        ensures
            literal@ == (LiteralModel { variable: variable@, negated: true }),
    {
        Self { variable: variable.to_owned(), negated: true }
    }
}

/// A disjunction of literals.
#[derive(Debug, Clone, PartialEq, Eq)]
pub struct Clause {
    pub literals: Vec<Literal>,
}

impl View for Clause {
    type V = Seq<LiteralModel>;

    open spec fn view(&self) -> Seq<LiteralModel> {
        Seq::new(self.literals@.len(), |i: int| self.literals@[i]@)
    }
}

impl Clause {
    /// The clause over the given literals.
    pub fn new(literals: Vec<Literal>) -> (clause: Self)
        ensures
            clause.literals == literals,
            clause@ == Seq::new(literals@.len(), |i: int| literals@[i]@),
    {
        Self { literals }
    }
}

/// A conjunction of clauses.
#[derive(Debug, Clone, PartialEq, Eq)]
pub struct CnfFormula {
    pub clauses: Vec<Clause>,
}

impl View for CnfFormula {
    type V = CnfModel;

    open spec fn view(&self) -> CnfModel {
        Seq::new(self.clauses@.len(), |i: int| self.clauses@[i]@)
    }
}

impl Default for CnfFormula {
    fn default() -> (formula: Self)
        ensures
            formula@ == CnfModel::empty(),
    {
        Self { clauses: Vec::new() }
    }
}

/// The value of a variable; one without a value counts as false.
pub open spec fn value_of(assignment: Map<Seq<char>, bool>, variable: Seq<char>) -> bool {
    assignment.contains_key(variable) && assignment[variable]
}

/// The value of a literal.
pub open spec fn literal_value(literal: LiteralModel, assignment: Map<Seq<char>, bool>) -> bool {
    value_of(assignment, literal.variable) != literal.negated
}

/// The value of a clause: some literal of it holds.
pub open spec fn clause_value(clause: Seq<LiteralModel>, assignment: Map<Seq<char>, bool>) -> bool {
    exists|i: int| 0 <= i < clause.len() && literal_value(#[trigger] clause[i], assignment)
}

/// The value of a formula: every clause of it holds.
pub open spec fn cnf_value(formula: CnfModel, assignment: Map<Seq<char>, bool>) -> bool {
    forall|i: int| 0 <= i < formula.len() ==> clause_value(#[trigger] formula[i], assignment)
}

/// A variable occurs in a clause.
pub open spec fn clause_mentions(clause: Seq<LiteralModel>, variable: Seq<char>) -> bool {
    exists|j: int| 0 <= j < clause.len() && (#[trigger] clause[j]).variable == variable
}

/// A variable occurs in a formula.
pub open spec fn cnf_mentions(formula: CnfModel, variable: Seq<char>) -> bool {
    exists|i: int| 0 <= i < formula.len() && clause_mentions(#[trigger] formula[i], variable)
}

/// The texts of a list of strings.
pub open spec fn texts(list: Seq<String>) -> Seq<Seq<char>> {
    Seq::new(list.len(), |i: int| list[i]@)
}

/// `names` lists the variables of a formula in ascending order.
pub open spec fn are_variables(names: Seq<Seq<char>>, formula: CnfModel) -> bool {
    &&& text::sorted_texts(names)
    &&& forall|v: Seq<char>| #[trigger] names.contains(v) <==> cnf_mentions(formula, v)
}

impl CnfFormula {
    /// The formula over the given clauses.
    pub fn new(clauses: Vec<Clause>) -> (formula: Self)
        ensures
            formula.clauses == clauses,
            formula@ == Seq::new(clauses@.len(), |i: int| clauses@[i]@),
    {
        Self { clauses }
    }

    /// The variables that occur in the formula, each once, in ascending order.
    pub fn variables(&self) -> (names: Vec<String>)
        ensures
            are_variables(texts(names@), self@),
    {
        let mut seen: StrMap<()> = StrMap::new();
        let ghost done: Set<Seq<char>> = Set::empty();
        let mut i: usize = 0;
        while i < self.clauses.len()
            invariant
                i <= self.clauses@.len(),
                seen.wf(),
                forall|v: Seq<char>| #[trigger] seen@.contains_key(v) <==> cnf_mentions(
                    self@.take(i as int),
                    v,
                ),
            decreases self.clauses.len() - i,
        {
            let ghost outer = seen@;
            let ghost clause = self@[i as int];
            let literals: &Vec<Literal> = &self.clauses[i].literals;
            let mut j: usize = 0;
            while j < literals.len()
                invariant
                    j <= literals@.len(),
                    i < self.clauses@.len(),
                    literals == &self.clauses@[i as int].literals,
                    clause == self@[i as int],
                    seen.wf(),
                    forall|v: Seq<char>| #[trigger] seen@.contains_key(v) <==> (outer.contains_key(v)
                        || clause_mentions(clause.take(j as int), v)),
                decreases literals.len() - j,
            {
                proof {
                    let before = clause.take(j as int);
                    let after = clause.take(j + 1);
                    let name = literals@[j as int].variable@;
                    assert(clause[j as int].variable == name);
                    assert forall|v: Seq<char>| #[trigger] clause_mentions(after, v) <==> (clause_mentions(
                        before,
                        v,
                    ) || v == name) by {
                        if clause_mentions(before, v) {
                            let k = choose|k: int| 0 <= k < before.len() && (#[trigger] before[k]).variable == v;
                            assert(after[k].variable == v);
                        }
                        assert(after[j as int].variable == name);
                        if clause_mentions(after, v) && v != name {
                            let k = choose|k: int| 0 <= k < after.len() && (#[trigger] after[k]).variable == v;
                            assert(before[k].variable == v);
                        }
                    }
                }
                seen.insert(literals[j].variable.clone(), ());
                j += 1;
            }
            proof {
                let before = self@.take(i as int);
                let after = self@.take(i + 1);
                assert(clause.take(literals@.len() as int) =~= clause);
                assert forall|v: Seq<char>| #[trigger] cnf_mentions(after, v) <==> (cnf_mentions(before, v)
                    || clause_mentions(clause, v)) by {
                    if cnf_mentions(before, v) {
                        let k = choose|k: int| 0 <= k < before.len() && clause_mentions(#[trigger] before[k], v);
                        assert(clause_mentions(after[k], v));
                    }
                    assert(after[i as int] == clause);
                    if cnf_mentions(after, v) && !clause_mentions(clause, v) {
                        let k = choose|k: int| 0 <= k < after.len() && clause_mentions(#[trigger] after[k], v);
                        assert(clause_mentions(before[k], v));
                    }
                }
            }
            i += 1;
        }
        assert(self@.take(i as int) =~= self@);
        let mut names: Vec<String> = Vec::new();
        let mut k: usize = 0;
        while k < seen.len()
            invariant
                k <= seen.key_seq().len(),
                texts(names@) == seen.key_seq().take(k as int),
            decreases seen.key_seq().len() - k,
        {
            let ghost before = names@;
            names.push(seen.key_at(k).clone());
            assert(texts(names@) =~= texts(before).push(seen.key_seq()[k as int]));
            assert(texts(names@) =~= seen.key_seq().take(k + 1));
            k += 1;
        }
        proof {
            seen.lemma_entries();
            assert(seen.key_seq().take(k as int) =~= seen.key_seq());
            assert forall|v: Seq<char>| #[trigger] texts(names@).contains(v) <==> cnf_mentions(self@, v) by {
                assert(seen@.contains_key(v) <==> cnf_mentions(self@, v));
                assert(seen@.dom().contains(v) <==> seen.key_seq().to_set().contains(v));
            }
        }
        names
    }

    /// The value of the formula; a variable without a value counts as false.
    pub fn evaluate(&self, assignment: &StrMap<bool>) -> (value: bool)
        requires
            assignment.wf(),
        ensures
            value == cnf_value(self@, assignment@),
    {
        let mut i: usize = 0;
        while i < self.clauses.len()
            invariant
                i <= self.clauses@.len(),
                assignment.wf(),
                forall|k: int| 0 <= k < i ==> clause_value(#[trigger] self@[k], assignment@),
            decreases self.clauses.len() - i,
        {
            if !self.clauses[i].holds(assignment) {
                assert(!clause_value(self@[i as int], assignment@));
                return false;
            }
            i += 1;
        }
        true
    }
}

impl Clause {
    /// Whether some literal of the clause holds.
    fn holds(&self, assignment: &StrMap<bool>) -> (value: bool)
        requires
            assignment.wf(),
        ensures
            value == clause_value(self@, assignment@),
    {
        let mut j: usize = 0;
        while j < self.literals.len()
            invariant
                j <= self.literals@.len(),
                assignment.wf(),
                forall|k: int| 0 <= k < j ==> !literal_value(#[trigger] self@[k], assignment@),
            decreases self.literals.len() - j,
        {
            let literal: &Literal = &self.literals[j];
            let value: bool = match assignment.get(literal.variable.as_str()) {
                Some(value) => *value,
                None => false,
            };
            assert(self@[j as int] == literal@);
            if value != literal.negated {
                return true;
            }
            j += 1;
        }
        false
    }
}

/// What a node computes, over the positions of earlier nodes.
pub enum NodeModel {
    Input(Seq<char>),
    Const(bool),
    Not(nat),
    Or(nat, nat),
}

impl NodeModel {
    /// The node combines the values of earlier nodes.
    pub open spec fn is_gate(self) -> bool {
        self is Not || self is Or
    }
}

/// What a node of a circuit computes.
#[derive(Debug, Clone, PartialEq, Eq)]
pub enum CircuitNodeKind {
    Input { name: String },
    Const { value: bool },
    Not { input: NodeId },
    Or { lhs: NodeId, rhs: NodeId },
}

impl View for CircuitNodeKind {
    type V = NodeModel;

    open spec fn view(&self) -> NodeModel {
        match *self {
            CircuitNodeKind::Input { name } => NodeModel::Input(name@),
            CircuitNodeKind::Const { value } => NodeModel::Const(value),
            CircuitNodeKind::Not { input } => NodeModel::Not(input.0 as nat),
            CircuitNodeKind::Or { lhs, rhs } => NodeModel::Or(lhs.0 as nat, rhs.0 as nat),
        }
    }
}

/// A node with its position.
#[derive(Debug, Clone, PartialEq, Eq)]
pub struct CircuitNode {
    pub id: NodeId,
    pub kind: CircuitNodeKind,
}

/// The nodes of a circuit without their positions.
pub open spec fn node_models(nodes: Seq<CircuitNode>) -> Seq<NodeModel> {
    Seq::new(nodes.len(), |i: int| nodes[i].kind@)
}

/// Every node refers to earlier nodes only.
pub open spec fn well_founded(nodes: Seq<NodeModel>) -> bool {
    forall|i: int| 0 <= i < nodes.len() ==> match #[trigger] nodes[i] {
        NodeModel::Not(input) => input < i,
        NodeModel::Or(lhs, rhs) => lhs < i && rhs < i,
        _ => true,
    }
}

/// The value that a node takes when the inputs have the values of `assignment` and the
/// constant false has the value `blank`.
pub open spec fn wired_value(
    nodes: Seq<NodeModel>,
    i: nat,
    assignment: Map<Seq<char>, bool>,
    blank: bool,
) -> bool
    decreases i,
{
    if i < nodes.len() {
        match nodes[i as int] {
            NodeModel::Input(name) => value_of(assignment, name),
            NodeModel::Const(value) => value || blank,
            NodeModel::Not(input) => input < i && !wired_value(nodes, input, assignment, blank),
            NodeModel::Or(lhs, rhs) => (lhs < i && wired_value(nodes, lhs, assignment, blank)) || (rhs < i
                && wired_value(nodes, rhs, assignment, blank)),
        }
    } else {
        false
    }
}

/// The value that a node takes when the inputs have the values of `assignment`.
pub open spec fn node_value(nodes: Seq<NodeModel>, i: nat, assignment: Map<Seq<char>, bool>) -> bool {
    wired_value(nodes, i, assignment, false)
}

/// The value of a clause when the empty clause has the value `blank`.
pub open spec fn clause_wired(
    clause: Seq<LiteralModel>,
    assignment: Map<Seq<char>, bool>,
    blank: bool,
) -> bool {
    if clause.len() == 0 {
        blank
    } else {
        clause_value(clause, assignment)
    }
}

/// The value of a formula when the empty clause has the value `blank`.
pub open spec fn cnf_wired(formula: CnfModel, assignment: Map<Seq<char>, bool>, blank: bool) -> bool {
    forall|i: int| 0 <= i < formula.len() ==> clause_wired(#[trigger] formula[i], assignment, blank)
}

/// The length of the longest chain of gates that ends in a node.
pub open spec fn node_depth(nodes: Seq<NodeModel>, i: nat) -> nat
    decreases i,
{
    if i < nodes.len() {
        match nodes[i as int] {
            NodeModel::Not(input) => if input < i {
                node_depth(nodes, input) + 1
            } else {
                1
            },
            NodeModel::Or(lhs, rhs) => if lhs < i && rhs < i {
                let l = node_depth(nodes, lhs);
                let r = node_depth(nodes, rhs);
                if l >= r {
                    l + 1
                } else {
                    r + 1
                }
            } else {
                1
            },
            _ => 0,
        }
    } else {
        0
    }
}

/// How often a node is named as an operand.
pub open spec fn operand_count(node: NodeModel, i: nat) -> nat {
    match node {
        NodeModel::Not(input) => if input == i {
            1
        } else {
            0
        },
        NodeModel::Or(lhs, rhs) => (if lhs == i {
            1nat
        } else {
            0
        }) + (if rhs == i {
            1nat
        } else {
            0
        }),
        _ => 0,
    }
}

/// How often the nodes name node `i` as an operand.
pub open spec fn fanout_of(nodes: Seq<NodeModel>, i: nat) -> nat
    decreases nodes.len(),
{
    if nodes.len() == 0 {
        0
    } else {
        fanout_of(nodes.drop_last(), i) + operand_count(nodes.last(), i)
    }
}

/// A circuit: its nodes, its variables in ascending order, and the node whose value it returns.
pub struct CircuitModel {
    pub nodes: Seq<NodeModel>,
    pub variables: Seq<Seq<char>>,
    pub output: nat,
}

impl CircuitModel {
    /// The inputs come first, one for each variable, gates refer to earlier nodes,
    /// and the output is a gate wherever there is one.
    pub open spec fn wf(self) -> bool {
        &&& well_founded(self.nodes)
        &&& self.output < self.nodes.len()
        &&& text::sorted_texts(self.variables)
        &&& self.variables.len() <= self.nodes.len()
        &&& forall|i: int|
            0 <= i < self.variables.len() ==> #[trigger] self.nodes[i] == NodeModel::Input(self.variables[i])
        &&& forall|i: int|
            self.variables.len() <= i < self.nodes.len() ==> !((#[trigger] self.nodes[i]) is Input)
        &&& forall|i: int|
            0 <= i < self.nodes.len() && (#[trigger] self.nodes[i]).is_gate()
                ==> self.nodes[self.output as int].is_gate()
    }

    /// The value that the circuit returns.
    pub open spec fn value(self, assignment: Map<Seq<char>, bool>) -> bool {
        node_value(self.nodes, self.output, assignment)
    }
}

/// The variables of a formula in ascending order.
pub open spec fn sorted_variables(formula: CnfModel) -> Seq<Seq<char>> {
    choose|names: Seq<Seq<char>>| are_variables(names, formula)
}

/// The ascending list of a formula's variables is unique.
pub proof fn lemma_variables_unique(names: Seq<Seq<char>>, formula: CnfModel)
    requires
        are_variables(names, formula),
    ensures
        names == sorted_variables(formula),
{
    let other = sorted_variables(formula);
    assert(are_variables(other, formula));
    assert forall|v: Seq<char>| names.to_set().contains(v) == other.to_set().contains(v) by {
        assert(names.contains(v) <==> cnf_mentions(formula, v));
        assert(other.contains(v) <==> cnf_mentions(formula, v));
    }
    assert(names.to_set() =~= other.to_set());
    crate::strmap::lemma_sorted_texts_unique(names, other);
}

/// Nodes, and the positions of some of them.
pub type Selection = (Seq<NodeModel>, Seq<nat>);

/// Joins the first `k` pairs of positions by or-gates.
pub open spec fn pair_gates(nodes: Seq<NodeModel>, ids: Seq<nat>, k: nat) -> Selection
    decreases k,
{
    if k == 0 {
        (nodes, Seq::empty())
    } else {
        let (grown, heads) = pair_gates(nodes, ids, (k - 1) as nat);
        (grown.push(NodeModel::Or(ids[2 * k - 2], ids[2 * k - 1])), heads.push(grown.len()))
    }
}

/// Joins neighbouring positions by or-gates; an odd one out stays as it is.
pub open spec fn halve_gates(nodes: Seq<NodeModel>, ids: Seq<nat>) -> Selection {
    let (grown, heads) = pair_gates(nodes, ids, ids.len() / 2);
    if ids.len() % 2 == 1 {
        (grown, heads.push(ids.last()))
    } else {
        (grown, heads)
    }
}

/// A balanced tree of or-gates over the given positions, and the position of its root.
pub open spec fn balanced_or(nodes: Seq<NodeModel>, ids: Seq<nat>) -> (Seq<NodeModel>, nat)
    decreases ids.len(),
{
    if ids.len() <= 1 {
        (nodes, ids[0])
    } else {
        proof {
            lemma_halve_gates_len(nodes, ids);
        }
        let (grown, heads) = halve_gates(nodes, ids);
        balanced_or(grown, heads)
    }
}

proof fn lemma_pair_gates_len(nodes: Seq<NodeModel>, ids: Seq<nat>, k: nat)
    ensures
        pair_gates(nodes, ids, k).0.len() == nodes.len() + k,
        pair_gates(nodes, ids, k).1.len() == k,
    decreases k,
{
    if k > 0 {
        lemma_pair_gates_len(nodes, ids, (k - 1) as nat);
    }
}

/// Halving shortens every list of two or more positions.
pub proof fn lemma_halve_gates_len(nodes: Seq<NodeModel>, ids: Seq<nat>)
    ensures
        halve_gates(nodes, ids).1.len() == ids.len() / 2 + ids.len() % 2,
{
    lemma_pair_gates_len(nodes, ids, ids.len() / 2);
}

/// The disjunction of the given positions: the constant false where there are none.
pub open spec fn or_gates(nodes: Seq<NodeModel>, ids: Seq<nat>) -> (Seq<NodeModel>, nat) {
    if ids.len() == 0 {
        (nodes.push(NodeModel::Const(false)), nodes.len())
    } else if ids.len() == 1 {
        (nodes, ids[0])
    } else {
        balanced_or(nodes, ids)
    }
}

/// Negates the first `k` positions.
pub open spec fn not_gates(nodes: Seq<NodeModel>, ids: Seq<nat>, k: nat) -> Selection
    decreases k,
{
    if k == 0 {
        (nodes, Seq::empty())
    } else {
        let (grown, heads) = not_gates(nodes, ids, (k - 1) as nat);
        (grown.push(NodeModel::Not(ids[k - 1])), heads.push(grown.len()))
    }
}

/// The conjunction of the given positions, as the negation of the disjunction of their
/// negations: the constant true where there are none.
pub open spec fn and_gates(nodes: Seq<NodeModel>, ids: Seq<nat>) -> (Seq<NodeModel>, nat) {
    if ids.len() == 0 {
        (nodes.push(NodeModel::Const(true)), nodes.len())
    } else if ids.len() == 1 {
        (nodes, ids[0])
    } else {
        let (negated, heads) = not_gates(nodes, ids, ids.len());
        let (joined, root) = or_gates(negated, heads);
        (joined.push(NodeModel::Not(root)), joined.len())
    }
}

/// One position for each of the first `k` literals: the input of its variable, or a
/// not-gate over that.
pub open spec fn literal_gates(
    nodes: Seq<NodeModel>,
    names: Seq<Seq<char>>,
    clause: Seq<LiteralModel>,
    k: nat,
) -> Selection
    decreases k,
{
    if k == 0 {
        (nodes, Seq::empty())
    } else {
        let (grown, heads) = literal_gates(nodes, names, clause, (k - 1) as nat);
        let literal = clause[k - 1];
        let input = names.index_of(literal.variable) as nat;
        if literal.negated {
            (grown.push(NodeModel::Not(input)), heads.push(grown.len()))
        } else {
            (grown, heads.push(input))
        }
    }
}

/// One position for each of the first `k` clauses.
pub open spec fn clause_gates(
    nodes: Seq<NodeModel>,
    names: Seq<Seq<char>>,
    formula: CnfModel,
    k: nat,
) -> Selection
    decreases k,
{
    if k == 0 {
        (nodes, Seq::empty())
    } else {
        let (grown, heads) = clause_gates(nodes, names, formula, (k - 1) as nat);
        let clause = formula[k - 1];
        let (wired, literals) = literal_gates(grown, names, clause, clause.len());
        let (joined, root) = or_gates(wired, literals);
        (joined, heads.push(root))
    }
}

/// One input node for each name.
pub open spec fn input_nodes(names: Seq<Seq<char>>) -> Seq<NodeModel> {
    Seq::new(names.len(), |i: int| NodeModel::Input(names[i]))
}

/// The circuit of a formula: its inputs in ascending order, then the gates of each
/// clause in turn, then the conjunction of the clauses.
pub open spec fn circuit_of(formula: CnfModel) -> CircuitModel {
    let names = sorted_variables(formula);
    let (clauses, heads) = clause_gates(input_nodes(names), names, formula, formula.len());
    let (nodes, output) = and_gates(clauses, heads);
    CircuitModel { nodes, variables: names, output }
}

/// `after` extends `before`.
pub open spec fn extends(before: Seq<NodeModel>, after: Seq<NodeModel>) -> bool {
    &&& before.len() <= after.len()
    &&& forall|i: int| 0 <= i < before.len() ==> after[i] == #[trigger] before[i]
}

/// Every position is one of a node.
pub open spec fn in_range(ids: Seq<nat>, nodes: Seq<NodeModel>) -> bool {
    forall|i: int| 0 <= i < ids.len() ==> #[trigger] ids[i] < nodes.len()
}

/// Some of the given positions is true.
pub open spec fn some_true(nodes: Seq<NodeModel>, ids: Seq<nat>, a: Map<Seq<char>, bool>, c: bool) -> bool {
    exists|i: int| 0 <= i < ids.len() && wired_value(nodes, #[trigger] ids[i], a, c)
}

/// Later nodes do not change the value of a node.
pub proof fn lemma_value_extends(
    before: Seq<NodeModel>,
    after: Seq<NodeModel>,
    i: nat,
    a: Map<Seq<char>, bool>,
    c: bool,
)
    requires
        well_founded(before),
        extends(before, after),
        i < before.len(),
    ensures
        wired_value(after, i, a, c) == wired_value(before, i, a, c),
    decreases i,
{
    assert(after[i as int] == before[i as int]);
    match before[i as int] {
        NodeModel::Not(input) => lemma_value_extends(before, after, input, a, c),
        NodeModel::Or(lhs, rhs) => {
            lemma_value_extends(before, after, lhs, a, c);
            lemma_value_extends(before, after, rhs, a, c);
        },
        _ => {},
    }
}

proof fn lemma_some_true_extends(
    before: Seq<NodeModel>,
    after: Seq<NodeModel>,
    ids: Seq<nat>,
    a: Map<Seq<char>, bool>,
    c: bool,
)
    requires
        well_founded(before),
        extends(before, after),
        in_range(ids, before),
    ensures
        some_true(after, ids, a, c) == some_true(before, ids, a, c),
{
    assert forall|i: int| 0 <= i < ids.len() implies wired_value(after, #[trigger] ids[i], a, c)
        == wired_value(before, ids[i], a, c) by {
        lemma_value_extends(before, after, ids[i], a, c);
    }
}

proof fn lemma_pair_gates(nodes: Seq<NodeModel>, ids: Seq<nat>, k: nat)
    requires
        well_founded(nodes),
        in_range(ids, nodes),
        2 * k <= ids.len(),
    ensures
        well_founded(pair_gates(nodes, ids, k).0),
        extends(nodes, pair_gates(nodes, ids, k).0),
        in_range(pair_gates(nodes, ids, k).1, pair_gates(nodes, ids, k).0),
        pair_gates(nodes, ids, k).1.len() == k,
        forall|a: Map<Seq<char>, bool>, c: bool| #[trigger]
            some_true(pair_gates(nodes, ids, k).0, pair_gates(nodes, ids, k).1, a, c) == some_true(
                nodes,
                ids.take(2 * k as int),
                a,
                c,
            ),
    decreases k,
{
    if k == 0 {
    } else {
        let prev = (k - 1) as nat;
        lemma_pair_gates(nodes, ids, prev);
        let (grown, heads) = pair_gates(nodes, ids, prev);
        let gate = NodeModel::Or(ids[2 * k - 2], ids[2 * k - 1]);
        let (after, joined) = pair_gates(nodes, ids, k);
        assert(ids[2 * k - 2] < nodes.len() && ids[2 * k - 1] < nodes.len());
        assert(after == grown.push(gate));
        assert(well_founded(after));
        assert forall|a: Map<Seq<char>, bool>, c: bool| #[trigger] some_true(after, joined, a, c) == some_true(
            nodes,
            ids.take(2 * k as int),
            a,
            c,
        ) by {
            lemma_some_true_extends(grown, after, heads, a, c);
            assert(some_true(grown, heads, a, c) == some_true(nodes, ids.take(2 * prev as int), a, c));
            let lhs = ids[2 * k - 2];
            let rhs = ids[2 * k - 1];
            lemma_value_extends(nodes, after, lhs, a, c);
            lemma_value_extends(nodes, after, rhs, a, c);
            assert(wired_value(after, grown.len(), a, c) == (wired_value(nodes, lhs, a, c) || wired_value(nodes, rhs, a, c)));
            let shorter = ids.take(2 * prev as int);
            let longer = ids.take(2 * k as int);
            if some_true(nodes, shorter, a, c) {
                let i = choose|i: int| 0 <= i < shorter.len() && wired_value(nodes, #[trigger] shorter[i], a, c);
                assert(longer[i] == shorter[i]);
            }
            assert(longer[2 * k - 2] == lhs);
            assert(longer[2 * k - 1] == rhs);
            if some_true(nodes, longer, a, c) {
                let i = choose|i: int| 0 <= i < longer.len() && wired_value(nodes, #[trigger] longer[i], a, c);
                if i < 2 * prev {
                    assert(shorter[i] == longer[i]);
                }
            }
            if some_true(after, heads, a, c) {
                let i = choose|i: int| 0 <= i < heads.len() && wired_value(after, #[trigger] heads[i], a, c);
                assert(joined[i] == heads[i]);
            }
            assert(joined[heads.len() as int] == grown.len());
            if some_true(after, joined, a, c) {
                let i = choose|i: int| 0 <= i < joined.len() && wired_value(after, #[trigger] joined[i], a, c);
                if i < heads.len() {
                    assert(heads[i] == joined[i]);
                }
            }
        }
    }
}

proof fn lemma_halve_gates(nodes: Seq<NodeModel>, ids: Seq<nat>)
    requires
        well_founded(nodes),
        in_range(ids, nodes),
        ids.len() > 0,
    ensures
        well_founded(halve_gates(nodes, ids).0),
        extends(nodes, halve_gates(nodes, ids).0),
        in_range(halve_gates(nodes, ids).1, halve_gates(nodes, ids).0),
        halve_gates(nodes, ids).1.len() == ids.len() / 2 + ids.len() % 2,
        forall|a: Map<Seq<char>, bool>, c: bool| #[trigger]
            some_true(halve_gates(nodes, ids).0, halve_gates(nodes, ids).1, a, c) == some_true(nodes, ids, a, c),
{
    let k = ids.len() / 2;
    lemma_pair_gates(nodes, ids, k);
    let (grown, heads) = pair_gates(nodes, ids, k);
    let (after, joined) = halve_gates(nodes, ids);
    assert(ids[ids.len() - 1] < nodes.len());
    assert forall|a: Map<Seq<char>, bool>, c: bool| #[trigger] some_true(after, joined, a, c) == some_true(
        nodes,
        ids,
        a,
        c,
    ) by {
        assert(some_true(grown, heads, a, c) == some_true(nodes, ids.take(2 * k as int), a, c));
        if ids.len() % 2 == 0 {
            assert(ids.take(2 * k as int) =~= ids);
        } else {
            let shorter = ids.take(2 * k as int);
            lemma_value_extends(nodes, after, ids.last(), a, c);
            if some_true(nodes, shorter, a, c) {
                let i = choose|i: int| 0 <= i < shorter.len() && wired_value(nodes, #[trigger] shorter[i], a, c);
                assert(ids[i] == shorter[i]);
            }
            if some_true(nodes, ids, a, c) {
                let i = choose|i: int| 0 <= i < ids.len() && wired_value(nodes, #[trigger] ids[i], a, c);
                if i < 2 * k {
                    assert(shorter[i] == ids[i]);
                }
            }
            if some_true(grown, heads, a, c) {
                let i = choose|i: int| 0 <= i < heads.len() && wired_value(grown, #[trigger] heads[i], a, c);
                assert(joined[i] == heads[i]);
            }
            assert(joined[heads.len() as int] == ids.last());
            if some_true(after, joined, a, c) {
                let i = choose|i: int| 0 <= i < joined.len() && wired_value(after, #[trigger] joined[i], a, c);
                if i < heads.len() {
                    assert(heads[i] == joined[i]);
                }
            }
        }
    }
}

proof fn lemma_balanced_or(nodes: Seq<NodeModel>, ids: Seq<nat>)
    requires
        well_founded(nodes),
        in_range(ids, nodes),
        ids.len() > 0,
    ensures
        well_founded(balanced_or(nodes, ids).0),
        extends(nodes, balanced_or(nodes, ids).0),
        balanced_or(nodes, ids).1 < balanced_or(nodes, ids).0.len(),
        ids.len() > 1 ==> balanced_or(nodes, ids).0[balanced_or(nodes, ids).1 as int] is Or,
        forall|a: Map<Seq<char>, bool>, c: bool| #[trigger]
            wired_value(balanced_or(nodes, ids).0, balanced_or(nodes, ids).1, a, c) == some_true(nodes, ids, a, c),
    decreases ids.len(),
{
    if ids.len() == 1 {
        assert forall|a: Map<Seq<char>, bool>, c: bool| #[trigger] wired_value(nodes, ids[0], a, c) == some_true(
            nodes,
            ids,
            a,
            c,
        ) by {
            if some_true(nodes, ids, a, c) {
                let i = choose|i: int| 0 <= i < ids.len() && wired_value(nodes, #[trigger] ids[i], a, c);
            }
        }
    } else {
        lemma_halve_gates(nodes, ids);
        let (grown, heads) = halve_gates(nodes, ids);
        lemma_balanced_or(grown, heads);
        if ids.len() == 2 {
            lemma_pair_gates_len(nodes, ids, 0);
            assert(pair_gates(nodes, ids, 1).0.last() == NodeModel::Or(ids[0], ids[1])) by {
                reveal_with_fuel(pair_gates, 2);
            }
            assert(pair_gates(nodes, ids, 1).1[0] == nodes.len()) by {
                reveal_with_fuel(pair_gates, 2);
            }
        }
        assert forall|a: Map<Seq<char>, bool>, c: bool| #[trigger]
            wired_value(balanced_or(nodes, ids).0, balanced_or(nodes, ids).1, a, c) == some_true(nodes, ids, a, c) by {
            assert(some_true(grown, heads, a, c) == some_true(nodes, ids, a, c));
            assert(wired_value(balanced_or(grown, heads).0, balanced_or(grown, heads).1, a, c) == some_true(
                grown,
                heads,
                a,
                c,
            ));
        }
    }
}

proof fn lemma_or_gates(nodes: Seq<NodeModel>, ids: Seq<nat>)
    requires
        well_founded(nodes),
        in_range(ids, nodes),
    ensures
        well_founded(or_gates(nodes, ids).0),
        extends(nodes, or_gates(nodes, ids).0),
        or_gates(nodes, ids).1 < or_gates(nodes, ids).0.len(),
        forall|a: Map<Seq<char>, bool>, c: bool| #[trigger]
            wired_value(or_gates(nodes, ids).0, or_gates(nodes, ids).1, a, c) == (if ids.len() == 0 {
                c
            } else {
                some_true(nodes, ids, a, c)
            }),
{
    if ids.len() > 0 {
        lemma_balanced_or(nodes, ids);
    }
}

proof fn lemma_not_gates(nodes: Seq<NodeModel>, ids: Seq<nat>, k: nat)
    requires
        well_founded(nodes),
        in_range(ids, nodes),
        k <= ids.len(),
    ensures
        well_founded(not_gates(nodes, ids, k).0),
        extends(nodes, not_gates(nodes, ids, k).0),
        not_gates(nodes, ids, k).1.len() == k,
        in_range(not_gates(nodes, ids, k).1, not_gates(nodes, ids, k).0),
        forall|a: Map<Seq<char>, bool>, c: bool, i: int| #![trigger wired_value(not_gates(nodes, ids, k).0, not_gates(nodes, ids, k).1[i], a, c)]
            0 <= i < k ==> wired_value(not_gates(nodes, ids, k).0, not_gates(nodes, ids, k).1[i], a, c)
                == !wired_value(nodes, ids[i], a, c),
    decreases k,
{
    if k > 0 {
        let prev = (k - 1) as nat;
        lemma_not_gates(nodes, ids, prev);
        let (grown, heads) = not_gates(nodes, ids, prev);
        let (after, joined) = not_gates(nodes, ids, k);
        assert(ids[k - 1] < nodes.len());
        assert(well_founded(after));
        assert forall|a: Map<Seq<char>, bool>, c: bool, i: int| 0 <= i < k implies #[trigger] wired_value(
            after,
            joined[i],
            a,
            c,
        ) == !wired_value(nodes, ids[i], a, c) by {
            if i < k - 1 {
                assert(joined[i] == heads[i]);
                lemma_value_extends(grown, after, heads[i], a, c);
                assert(wired_value(grown, heads[i], a, c) == !wired_value(nodes, ids[i], a, c));
            } else {
                lemma_value_extends(nodes, after, ids[i], a, c);
            }
        }
    }
}

proof fn lemma_and_gates(nodes: Seq<NodeModel>, ids: Seq<nat>, a: Map<Seq<char>, bool>, c: bool)
    requires
        well_founded(nodes),
        in_range(ids, nodes),
    ensures
        well_founded(and_gates(nodes, ids).0),
        extends(nodes, and_gates(nodes, ids).0),
        and_gates(nodes, ids).1 < and_gates(nodes, ids).0.len(),
        wired_value(and_gates(nodes, ids).0, and_gates(nodes, ids).1, a, c) == (forall|i: int|
            0 <= i < ids.len() ==> wired_value(nodes, #[trigger] ids[i], a, c)),
{
    if ids.len() == 0 {
    } else if ids.len() == 1 {
        assert(wired_value(nodes, ids[0], a, c) ==> forall|i: int|
            0 <= i < ids.len() ==> wired_value(nodes, #[trigger] ids[i], a, c));
    } else {
        let (negated, heads) = not_gates(nodes, ids, ids.len());
        lemma_not_gates(nodes, ids, ids.len());
        lemma_or_gates(negated, heads);
        let (joined, root) = or_gates(negated, heads);
        let (after, output) = and_gates(nodes, ids);
        assert(after == joined.push(NodeModel::Not(root)));
        lemma_value_extends(joined, after, root, a, c);
        assert(wired_value(joined, root, a, c) == some_true(negated, heads, a, c));
        if some_true(negated, heads, a, c) {
            let i = choose|i: int| 0 <= i < heads.len() && wired_value(negated, #[trigger] heads[i], a, c);
            assert(!wired_value(nodes, ids[i], a, c));
        } else {
            assert forall|i: int| 0 <= i < ids.len() implies wired_value(nodes, #[trigger] ids[i], a, c) by {
                assert(!wired_value(negated, heads[i], a, c));
            }
        }
    }
}

/// The first nodes are the inputs of `names`.
pub open spec fn inputs_first(nodes: Seq<NodeModel>, names: Seq<Seq<char>>) -> bool {
    extends(input_nodes(names), nodes)
}

proof fn lemma_literal_gates(
    nodes: Seq<NodeModel>,
    names: Seq<Seq<char>>,
    clause: Seq<LiteralModel>,
    k: nat,
)
    requires
        well_founded(nodes),
        inputs_first(nodes, names),
        k <= clause.len(),
        forall|i: int| 0 <= i < clause.len() ==> names.contains((#[trigger] clause[i]).variable),
    ensures
        well_founded(literal_gates(nodes, names, clause, k).0),
        extends(nodes, literal_gates(nodes, names, clause, k).0),
        literal_gates(nodes, names, clause, k).1.len() == k,
        in_range(literal_gates(nodes, names, clause, k).1, literal_gates(nodes, names, clause, k).0),
        forall|a: Map<Seq<char>, bool>, c: bool, i: int|
            #![trigger wired_value(literal_gates(nodes, names, clause, k).0, literal_gates(nodes, names, clause, k).1[i], a, c)]
            0 <= i < k ==> wired_value(
                literal_gates(nodes, names, clause, k).0,
                literal_gates(nodes, names, clause, k).1[i],
                a,
                c,
            ) == literal_value(clause[i], a),
    decreases k,
{
    if k > 0 {
        let prev = (k - 1) as nat;
        lemma_literal_gates(nodes, names, clause, prev);
        let (grown, heads) = literal_gates(nodes, names, clause, prev);
        let (after, joined) = literal_gates(nodes, names, clause, k);
        let literal = clause[k - 1];
        assert(names.contains(literal.variable));
        let input = names.index_of(literal.variable) as nat;
        assert(names[input as int] == literal.variable);
        assert(input_nodes(names)[input as int] == NodeModel::Input(literal.variable));
        assert(nodes[input as int] == NodeModel::Input(literal.variable));
        assert(grown[input as int] == nodes[input as int]);
        assert(well_founded(after));
        assert forall|a: Map<Seq<char>, bool>, c: bool, i: int| 0 <= i < k implies #[trigger] wired_value(
            after,
            joined[i],
            a,
            c,
        ) == literal_value(clause[i], a) by {
            if i < k - 1 {
                assert(joined[i] == heads[i]);
                lemma_value_extends(grown, after, heads[i], a, c);
                assert(wired_value(grown, heads[i], a, c) == literal_value(clause[i], a));
            } else {
                assert(after[input as int] == NodeModel::Input(literal.variable));
                assert(wired_value(after, input, a, c) == value_of(a, literal.variable));
            }
        }
    }
}

proof fn lemma_clause_gates(nodes: Seq<NodeModel>, names: Seq<Seq<char>>, formula: CnfModel, k: nat)
    requires
        well_founded(nodes),
        inputs_first(nodes, names),
        k <= formula.len(),
        forall|v: Seq<char>| cnf_mentions(formula, v) ==> #[trigger] names.contains(v),
    ensures
        well_founded(clause_gates(nodes, names, formula, k).0),
        extends(nodes, clause_gates(nodes, names, formula, k).0),
        clause_gates(nodes, names, formula, k).1.len() == k,
        in_range(clause_gates(nodes, names, formula, k).1, clause_gates(nodes, names, formula, k).0),
        forall|a: Map<Seq<char>, bool>, c: bool, i: int|
            #![trigger wired_value(clause_gates(nodes, names, formula, k).0, clause_gates(nodes, names, formula, k).1[i], a, c)]
            0 <= i < k ==> wired_value(
                clause_gates(nodes, names, formula, k).0,
                clause_gates(nodes, names, formula, k).1[i],
                a,
                c,
            ) == clause_wired(formula[i], a, c),
    decreases k,
{
    if k > 0 {
        let prev = (k - 1) as nat;
        lemma_clause_gates(nodes, names, formula, prev);
        let (grown, heads) = clause_gates(nodes, names, formula, prev);
        let clause = formula[k - 1];
        assert forall|i: int| 0 <= i < clause.len() implies names.contains((#[trigger] clause[i]).variable) by {
            assert(clause_mentions(formula[k - 1], clause[i].variable));
            assert(cnf_mentions(formula, clause[i].variable));
        }
        assert(inputs_first(grown, names));
        lemma_literal_gates(grown, names, clause, clause.len());
        let (wired, literals) = literal_gates(grown, names, clause, clause.len());
        lemma_or_gates(wired, literals);
        let (joined, root) = or_gates(wired, literals);
        let (after, roots) = clause_gates(nodes, names, formula, k);
        assert(after == joined && roots == heads.push(root));
        assert(extends(grown, joined));
        assert forall|a: Map<Seq<char>, bool>, c: bool, i: int| 0 <= i < k implies #[trigger] wired_value(
            after,
            roots[i],
            a,
            c,
        ) == clause_wired(formula[i], a, c) by {
            if i < k - 1 {
                assert(roots[i] == heads[i]);
                lemma_value_extends(grown, after, heads[i], a, c);
                assert(wired_value(grown, heads[i], a, c) == clause_wired(formula[i], a, c));
            } else {
                assert(wired_value(joined, root, a, c) == (if literals.len() == 0 {
                    c
                } else {
                    some_true(wired, literals, a, c)
                }));
                if some_true(wired, literals, a, c) {
                    let j = choose|j: int| 0 <= j < literals.len() && wired_value(
                        wired,
                        #[trigger] literals[j],
                        a,
                        c,
                    );
                    assert(literal_value(clause[j], a));
                }
                if clause.len() > 0 && clause_value(clause, a) {
                    let j = choose|j: int| 0 <= j < clause.len() && literal_value(#[trigger] clause[j], a);
                    assert(wired_value(wired, literals[j], a, c));
                }
            }
        }
    }
}

/// The nodes after the first `n` are gates or, where that is allowed, the constant false.
pub open spec fn gates_from(n: nat, nodes: Seq<NodeModel>, blanks: bool) -> bool {
    forall|i: int|
        n <= i < nodes.len() ==> (#[trigger] nodes[i]).is_gate() || (blanks && nodes[i] == NodeModel::Const(
            false,
        ))
}

proof fn lemma_pair_gates_tail(nodes: Seq<NodeModel>, ids: Seq<nat>, k: nat, n: nat, blanks: bool)
    requires
        gates_from(n, nodes, blanks),
    ensures
        gates_from(n, pair_gates(nodes, ids, k).0, blanks),
    decreases k,
{
    if k > 0 {
        lemma_pair_gates_tail(nodes, ids, (k - 1) as nat, n, blanks);
    }
}

proof fn lemma_or_gates_tail(nodes: Seq<NodeModel>, ids: Seq<nat>, n: nat, blanks: bool)
    requires
        blanks || ids.len() > 0,
        gates_from(n, nodes, blanks),
    ensures
        gates_from(n, or_gates(nodes, ids).0, blanks),
    decreases ids.len(),
{
    if ids.len() >= 2 {
        lemma_pair_gates_tail(nodes, ids, ids.len() / 2, n, blanks);
        lemma_halve_gates_len(nodes, ids);
        let (grown, heads) = halve_gates(nodes, ids);
        lemma_or_gates_tail(grown, heads, n, blanks);
        assert(balanced_or(nodes, ids) == balanced_or(grown, heads));
        assert(balanced_or(grown, heads) == or_gates(grown, heads));
    }
}

proof fn lemma_not_gates_tail(nodes: Seq<NodeModel>, ids: Seq<nat>, k: nat, n: nat, blanks: bool)
    requires
        gates_from(n, nodes, blanks),
    ensures
        gates_from(n, not_gates(nodes, ids, k).0, blanks),
    decreases k,
{
    if k > 0 {
        lemma_not_gates_tail(nodes, ids, (k - 1) as nat, n, blanks);
    }
}

proof fn lemma_literal_gates_tail(
    nodes: Seq<NodeModel>,
    names: Seq<Seq<char>>,
    clause: Seq<LiteralModel>,
    k: nat,
    n: nat,
    blanks: bool,
)
    requires
        gates_from(n, nodes, blanks),
    ensures
        gates_from(n, literal_gates(nodes, names, clause, k).0, blanks),
    decreases k,
{
    if k > 0 {
        lemma_literal_gates_tail(nodes, names, clause, (k - 1) as nat, n, blanks);
    }
}

proof fn lemma_clause_gates_tail(
    nodes: Seq<NodeModel>,
    names: Seq<Seq<char>>,
    formula: CnfModel,
    k: nat,
    n: nat,
    blanks: bool,
)
    requires
        gates_from(n, nodes, blanks),
        k <= formula.len(),
        blanks || forall|i: int| 0 <= i < k ==> (#[trigger] formula[i]).len() > 0,
    ensures
        gates_from(n, clause_gates(nodes, names, formula, k).0, blanks),
    decreases k,
{
    if k > 0 {
        let prev = (k - 1) as nat;
        lemma_clause_gates_tail(nodes, names, formula, prev, n, blanks);
        let (grown, heads) = clause_gates(nodes, names, formula, prev);
        let clause = formula[k - 1];
        lemma_literal_gates_tail(grown, names, clause, clause.len(), n, blanks);
        let (wired, literals) = literal_gates(grown, names, clause, clause.len());
        lemma_literal_gates_len(grown, names, clause, clause.len());
        lemma_or_gates_tail(wired, literals, n, blanks);
    }
}

proof fn lemma_literal_gates_len(
    nodes: Seq<NodeModel>,
    names: Seq<Seq<char>>,
    clause: Seq<LiteralModel>,
    k: nat,
)
    ensures
        literal_gates(nodes, names, clause, k).1.len() == k,
    decreases k,
{
    if k > 0 {
        lemma_literal_gates_len(nodes, names, clause, (k - 1) as nat);
    }
}

/// In the circuit of a formula with clauses, all that follows the inputs are gates and,
/// where there is an empty clause, the constant false.
pub proof fn lemma_circuit_of_tail(formula: CnfModel, blanks: bool)
    requires
        formula.len() > 0,
        blanks || forall|i: int| 0 <= i < formula.len() ==> (#[trigger] formula[i]).len() > 0,
    ensures
        gates_from(sorted_variables(formula).len(), circuit_of(formula).nodes, blanks),
{
    lemma_variables_exist(formula);
    let names = sorted_variables(formula);
    let start = input_nodes(names);
    assert(well_founded(start));
    lemma_clause_gates(start, names, formula, formula.len());
    let (clauses, heads) = clause_gates(start, names, formula, formula.len());
    assert(gates_from(names.len(), start, blanks));
    lemma_clause_gates_tail(start, names, formula, formula.len(), names.len(), blanks);
    if heads.len() >= 2 {
        lemma_not_gates_tail(clauses, heads, heads.len(), names.len(), blanks);
        let (negated, roots) = not_gates(clauses, heads, heads.len());
        lemma_not_gates(clauses, heads, heads.len());
        lemma_or_gates_tail(negated, roots, names.len(), blanks);
    }
}

proof fn lemma_clause_gates_rest(
    nodes: Seq<NodeModel>,
    names: Seq<Seq<char>>,
    formula: CnfModel,
    j: nat,
    k: nat,
    n: nat,
)
    requires
        well_founded(nodes),
        inputs_first(nodes, names),
        j <= k <= formula.len(),
        forall|v: Seq<char>| cnf_mentions(formula, v) ==> #[trigger] names.contains(v),
        gates_from(n, clause_gates(nodes, names, formula, j).0, false),
        forall|i: int| j <= i < k ==> (#[trigger] formula[i]).len() > 0,
    ensures
        gates_from(n, clause_gates(nodes, names, formula, k).0, false),
        extends(clause_gates(nodes, names, formula, j).0, clause_gates(nodes, names, formula, k).0),
    decreases k,
{
    if j < k {
        let prev = (k - 1) as nat;
        lemma_clause_gates_rest(nodes, names, formula, j, prev, n);
        lemma_clause_gates(nodes, names, formula, prev);
        let (grown, heads) = clause_gates(nodes, names, formula, prev);
        let clause = formula[k - 1];
        assert forall|i: int| 0 <= i < clause.len() implies names.contains((#[trigger] clause[i]).variable) by {
            assert(clause_mentions(formula[k - 1], clause[i].variable));
            assert(cnf_mentions(formula, clause[i].variable));
        }
        assert(inputs_first(grown, names));
        lemma_literal_gates(grown, names, clause, clause.len());
        let (wired, literals) = literal_gates(grown, names, clause, clause.len());
        lemma_literal_gates_tail(grown, names, clause, clause.len(), n, false);
        lemma_literal_gates_len(grown, names, clause, clause.len());
        lemma_or_gates(wired, literals);
        lemma_or_gates_tail(wired, literals, n, false);
    }
}

/// In the circuit of a formula with one empty clause, all that follows the inputs are gates and
/// one constant false.
pub proof fn lemma_one_blank(formula: CnfModel, e: int) -> (p: nat)
    requires
        0 <= e < formula.len(),
        formula[e].len() == 0,
        forall|i: int| 0 <= i < formula.len() && i != e ==> (#[trigger] formula[i]).len() > 0,
    ensures
        sorted_variables(formula).len() <= p < circuit_of(formula).nodes.len(),
        circuit_of(formula).nodes[p as int] == NodeModel::Const(false),
        forall|x: int|
            sorted_variables(formula).len() <= x < circuit_of(formula).nodes.len() && x != p ==> (
            #[trigger] circuit_of(formula).nodes[x]).is_gate(),
{
    lemma_variables_exist(formula);
    let names = sorted_variables(formula);
    let start = input_nodes(names);
    assert(well_founded(start));
    assert(inputs_first(start, names));
    lemma_clause_gates_tail(start, names, formula, e as nat, names.len(), false);
    lemma_clause_gates(start, names, formula, e as nat);
    let before = clause_gates(start, names, formula, e as nat).0;
    let p = before.len();
    let at = clause_gates(start, names, formula, (e + 1) as nat).0;
    assert(literal_gates(before, names, formula[e], 0).0 == before);
    assert(at == before.push(NodeModel::Const(false)));
    lemma_clause_gates_rest(start, names, formula, (e + 1) as nat, formula.len(), p + 1);
    lemma_clause_gates(start, names, formula, formula.len());
    let (clauses, heads) = clause_gates(start, names, formula, formula.len());
    if heads.len() >= 2 {
        lemma_not_gates_tail(clauses, heads, heads.len(), p + 1, false);
        let (negated, roots) = not_gates(clauses, heads, heads.len());
        lemma_not_gates(clauses, heads, heads.len());
        lemma_or_gates_tail(negated, roots, p + 1, false);
        lemma_or_gates(negated, roots);
    }
    let nodes = circuit_of(formula).nodes;
    assert(extends(clauses, nodes));
    assert(gates_from(p + 1, nodes, false));
    assert forall|x: int| names.len() <= x < nodes.len() && x != p implies (#[trigger] nodes[x]).is_gate() by {
        if x < p {
            assert(at[x] == before[x]);
            assert(clauses[x] == at[x]);
        }
    }
    assert(clauses[p as int] == at[p as int]);
    p
}

/// Every formula has an ascending list of its variables.
pub proof fn lemma_variables_exist(formula: CnfModel)
    ensures
        are_variables(sorted_variables(formula), formula),
{
    let names = lemma_names_up_to(formula, formula.len());
    assert(formula.take(formula.len() as int) =~= formula);
    assert(are_variables(names, formula));
}

proof fn lemma_names_up_to(formula: CnfModel, k: nat) -> (names: Seq<Seq<char>>)
    requires
        k <= formula.len(),
    ensures
        are_variables(names, formula.take(k as int)),
    decreases k,
{
    if k == 0 {
        Seq::empty()
    } else {
        let before = formula.take(k - 1);
        let after = formula.take(k as int);
        let shorter = lemma_names_up_to(formula, (k - 1) as nat);
        let clause = formula[k - 1];
        let list = shorter + Seq::new(clause.len(), |i: int| clause[i].variable);
        let names = crate::strmap::lemma_sorted_list_exists(list);
        assert forall|v: Seq<char>| #[trigger] names.contains(v) <==> cnf_mentions(after, v) by {
            assert(shorter.contains(v) <==> cnf_mentions(before, v));
            if list.contains(v) {
                let i = choose|i: int| 0 <= i < list.len() && list[i] == v;
                if i < shorter.len() {
                    assert(shorter[i] == v);
                    let j = choose|j: int| 0 <= j < before.len() && clause_mentions(#[trigger] before[j], v);
                    assert(clause_mentions(after[j], v));
                } else {
                    assert(clause[i - shorter.len()].variable == v);
                    assert(clause_mentions(after[k - 1], v));
                }
            }
            if cnf_mentions(after, v) {
                let j = choose|j: int| 0 <= j < after.len() && clause_mentions(#[trigger] after[j], v);
                if j < k - 1 {
                    assert(clause_mentions(before[j], v));
                    let i = choose|i: int| 0 <= i < shorter.len() && shorter[i] == v;
                    assert(list[i] == v);
                } else {
                    let i = choose|i: int| 0 <= i < clause.len() && (#[trigger] clause[i]).variable == v;
                    assert(list[shorter.len() + i] == v);
                }
            }
        }
        names
    }
}

/// The circuit of a formula is well formed.
pub proof fn lemma_circuit_of_wf(formula: CnfModel)
    ensures
        circuit_of(formula).wf(),
{
    lemma_variables_exist(formula);
    let names = sorted_variables(formula);
    let start = input_nodes(names);
    assert(well_founded(start));
    lemma_clause_gates(start, names, formula, formula.len());
    let (clauses, heads) = clause_gates(start, names, formula, formula.len());
    lemma_and_gates(clauses, heads, Map::empty(), false);
    let circuit = circuit_of(formula);
    assert(forall|i: int| names.len() <= i < circuit.nodes.len() ==> !((#[trigger] circuit.nodes[i]) is Input))
        by {
        if formula.len() > 0 {
            lemma_circuit_of_tail(formula, true);
        }
    }
    assert forall|i: int| 0 <= i < names.len() implies #[trigger] circuit.nodes[i] == NodeModel::Input(
        names[i],
    ) by {
        assert(start[i] == NodeModel::Input(names[i]));
        assert(clauses[i] == start[i]);
    }
    if formula.len() == 0 {
        reveal_with_fuel(clause_gates, 1);
    } else if formula.len() == 1 {
        let clause = formula[0];
        assert(clause_gates(start, names, formula, 0) == (start, Seq::<nat>::empty()));
        let (wired, literals) = literal_gates(start, names, clause, clause.len());
        assert forall|i: int| 0 <= i < clause.len() implies names.contains((#[trigger] clause[i]).variable) by {
            assert(clause_mentions(formula[0], clause[i].variable));
            assert(cnf_mentions(formula, clause[i].variable));
        }
        lemma_literal_gates(start, names, clause, clause.len());
        let (joined, root) = or_gates(wired, literals);
        assert(circuit.nodes == joined);
        assert(circuit.output == root);
        if clause.len() == 0 {
            assert(wired == start);
        } else if clause.len() == 1 {
            assert(literal_gates(start, names, clause, 0) == (start, Seq::<nat>::empty()));
            reveal_with_fuel(literal_gates, 2);
        } else {
            lemma_balanced_or(wired, literals);
        }
    }
}

/// The circuit of a formula computes the formula, whatever value stands for false in the
/// empty clause.
pub proof fn lemma_circuit_wired(formula: CnfModel, a: Map<Seq<char>, bool>, c: bool)
    ensures
        wired_value(circuit_of(formula).nodes, circuit_of(formula).output, a, c) == cnf_wired(formula, a, c),
{
    lemma_variables_exist(formula);
    let names = sorted_variables(formula);
    let start = input_nodes(names);
    assert(well_founded(start));
    lemma_clause_gates(start, names, formula, formula.len());
    let (clauses, heads) = clause_gates(start, names, formula, formula.len());
    lemma_and_gates(clauses, heads, a, c);
    if cnf_wired(formula, a, c) {
        assert forall|i: int| 0 <= i < heads.len() implies wired_value(clauses, #[trigger] heads[i], a, c) by {
            assert(clause_wired(formula[i], a, c));
        }
    } else {
        let i = choose|i: int| 0 <= i < formula.len() && !clause_wired(#[trigger] formula[i], a, c);
        assert(!wired_value(clauses, heads[i], a, c));
    }
}

/// The circuit of a formula computes the value of the formula, under every assignment.
pub proof fn law_circuit_computes_formula(formula: CnfModel, a: Map<Seq<char>, bool>)
    ensures
        circuit_of(formula).value(a) == cnf_value(formula, a),
{
    lemma_circuit_wired(formula, a, false);
    if cnf_value(formula, a) {
        assert forall|i: int| 0 <= i < formula.len() implies clause_wired(#[trigger] formula[i], a, false) by {
            assert(clause_value(formula[i], a));
        }
    } else {
        let i = choose|i: int| 0 <= i < formula.len() && !clause_value(#[trigger] formula[i], a);
        assert(!clause_wired(formula[i], a, false));
    }
}

/// A Boolean circuit.
#[derive(Debug, Clone, PartialEq, Eq)]
pub struct Circuit {
    nodes: Vec<CircuitNode>,
    inputs: StrMap<NodeId>,
    output: NodeId,
}

impl View for Circuit {
    type V = CircuitModel;

    closed spec fn view(&self) -> CircuitModel {
        CircuitModel {
            nodes: node_models(self.nodes@),
            variables: self.inputs.key_seq(),
            output: self.output.0 as nat,
        }
    }
}

/// Every node carries its own position.
pub open spec fn numbered(nodes: Seq<CircuitNode>) -> bool {
    forall|i: int| 0 <= i < nodes.len() ==> (#[trigger] nodes[i]).id.0 == i
}

/// The values are the positions in the key order.
pub open spec fn numbers_keys(inputs: &StrMap<NodeId>) -> bool {
    &&& inputs.wf()
    &&& forall|v: Seq<char>| #[trigger] inputs@.contains_key(v) ==> inputs@[v].0
        == inputs.key_seq().index_of(v)
}

impl Circuit {
    /// The circuit's validity: see `CircuitModel::wf`; every node carries its position.
    pub closed spec fn wf(&self) -> bool {
        &&& self@.wf()
        &&& numbered(self.nodes@)
        &&& numbers_keys(&self.inputs)
    }

    /// The circuit of a formula.
    pub fn from_cnf(formula: &CnfFormula) -> (circuit: Self)
        ensures
            circuit.wf(),
            circuit@ == circuit_of(formula@),
            circuit@.wf(),
            forall|a: Map<Seq<char>, bool>| #[trigger] circuit@.value(a) == cnf_value(formula@, a),
    {
        let mut builder: CircuitBuilder = CircuitBuilder { nodes: Vec::new() };
        let mut inputs: StrMap<NodeId> = StrMap::new();
        let names: Vec<String> = formula.variables();
        let ghost list = texts(names@);
        proof {
            lemma_variables_unique(list, formula@);
            crate::strmap::lemma_sorted_texts_distinct(list);
        }
        let mut n: usize = 0;
        assert(builder@ =~= input_nodes(list.take(0)));
        while n < names.len()
            invariant
                n <= names@.len(),
                list == texts(names@),
                list.no_duplicates(),
                builder.wf(),
                builder@ == input_nodes(list.take(n as int)),
                inputs.wf(),
                forall|v: Seq<char>| #[trigger] inputs@.contains_key(v) <==> list.take(n as int).contains(v),
                forall|v: Seq<char>| #[trigger] inputs@.contains_key(v) ==> inputs@[v].0 == list.index_of(v),
            decreases names.len() - n,
        {
            let ghost before = inputs@;
            let input: NodeId = builder.input(names[n].clone());
            inputs.insert(names[n].clone(), input);
            proof {
                let name = list[n as int];
                let shorter = list.take(n as int);
                let longer = list.take(n + 1);
                assert(longer =~= shorter.push(name));
                assert(builder@ =~= input_nodes(longer));
                assert(list.index_of(name) == n);
                assert forall|v: Seq<char>| #[trigger] inputs@.contains_key(v) <==> longer.contains(v) by {
                    if shorter.contains(v) {
                        let i = choose|i: int| 0 <= i < shorter.len() && shorter[i] == v;
                        assert(longer[i] == v);
                    }
                    assert(longer[n as int] == name);
                    if longer.contains(v) && v != name {
                        let i = choose|i: int| 0 <= i < longer.len() && longer[i] == v;
                        assert(shorter[i] == v);
                    }
                }
                assert forall|v: Seq<char>| #[trigger] inputs@.contains_key(v) implies inputs@[v].0
                    == list.index_of(v) by {
                    if v != name {
                        assert(before.contains_key(v));
                    }
                }
            }
            n += 1;
        }
        proof {
            assert(list.take(n as int) =~= list);
            inputs.lemma_entries();
            assert forall|v: Seq<char>| inputs.key_seq().to_set().contains(v) == list.to_set().contains(v) by {
                assert(inputs@.contains_key(v) <==> list.contains(v));
                assert(inputs@.dom().contains(v) <==> inputs.key_seq().to_set().contains(v));
            }
            assert(inputs.key_seq().to_set() =~= list.to_set());
            crate::strmap::lemma_sorted_texts_unique(inputs.key_seq(), list);
        }
        let mut heads: Vec<NodeId> = Vec::new();
        let ghost start = builder@;
        let ghost model = formula@;
        let mut i: usize = 0;
        assert(positions(heads@) =~= Seq::<nat>::empty());
        while i < formula.clauses.len()
            invariant
                i <= formula.clauses@.len(),
                model == formula@,
                builder.wf(),
                inputs.wf(),
                forall|v: Seq<char>| cnf_mentions(model, v) ==> inputs@.contains_key(v),
                forall|v: Seq<char>| #[trigger] inputs@.contains_key(v) ==> inputs@[v].0 == list.index_of(v),
                (builder@, positions(heads@)) == clause_gates(start, list, model, i as nat),
            decreases formula.clauses.len() - i,
        {
            let literals: &Vec<Literal> = &formula.clauses[i].literals;
            let ghost clause = model[i as int];
            let ghost grown = builder@;
            let mut literal_heads: Vec<NodeId> = Vec::new();
            let mut j: usize = 0;
            assert(positions(literal_heads@) =~= Seq::<nat>::empty());
            while j < literals.len()
                invariant
                    j <= literals@.len(),
                    i < formula.clauses@.len(),
                    model == formula@,
                    literals == &formula.clauses@[i as int].literals,
                    clause == model[i as int],
                    builder.wf(),
                    inputs.wf(),
                    forall|v: Seq<char>| cnf_mentions(model, v) ==> inputs@.contains_key(v),
                    forall|v: Seq<char>| #[trigger] inputs@.contains_key(v) ==> inputs@[v].0 == list.index_of(v),
                    (builder@, positions(literal_heads@)) == literal_gates(grown, list, clause, j as nat),
                decreases literals.len() - j,
            {
                let literal: &Literal = &literals[j];
                proof {
                    assert(clause[j as int] == literal@);
                    assert(clause_mentions(model[i as int], literal@.variable));
                    assert(cnf_mentions(model, literal@.variable));
                }
                let ghost before = literal_heads@;
                if let Some(found) = inputs.get(literal.variable.as_str()) {
                    let input: NodeId = *found;
                    let head: NodeId = if literal.negated {
                        builder.not(input)
                    } else {
                        input
                    };
                    literal_heads.push(head);
                    assert(positions(literal_heads@) =~= positions(before).push(head.0 as nat));
                }
                j += 1;
            }
            let ghost before = heads@;
            let root: NodeId = builder.or_many(&literal_heads);
            heads.push(root);
            proof {
                assert(clause.len() == literals@.len());
                assert(positions(heads@) =~= positions(before).push(root.0 as nat));
            }
            i += 1;
        }
        let output: NodeId = builder.and_many(&heads);
        proof {
            lemma_circuit_of_wf(model);
            assert forall|a: Map<Seq<char>, bool>| #[trigger] circuit_of(model).value(a) == cnf_value(model, a) by {
                law_circuit_computes_formula(model, a);
            }
        }
        Self { nodes: builder.nodes, inputs, output }
    }

    /// The nodes, each after those that it refers to.
    pub fn nodes(&self) -> (nodes: &Vec<CircuitNode>)
        requires
            self.wf(),
        ensures
            node_models(nodes@) == self@.nodes,
            nodes@.len() == self@.nodes.len(),
            numbered(nodes@),
    {
        &self.nodes
    }

    /// The input node of each variable.
    pub fn inputs(&self) -> (inputs: &StrMap<NodeId>)
        requires
            self.wf(),
        ensures
            inputs.key_seq() == self@.variables,
            numbers_keys(inputs),
    {
        &self.inputs
    }

    /// The node whose value the circuit returns.
    pub fn output(&self) -> (id: NodeId)
        ensures
            id.0 == self@.output,
    {
        self.output
    }

    /// The node at a position.
    pub fn node(&self, id: NodeId) -> (node: &CircuitNode)
        requires
            self.wf(),
            id.0 < self@.nodes.len(),
        ensures
            node.id == id,
            node.kind@ == self@.nodes[id.0 as int],
    {
        &self.nodes[id.0]
    }

    /// How often each node is named as an operand.
    pub fn fanout_counts(&self) -> (counts: Vec<usize>)
        requires
            self.wf(),
            2 * self@.nodes.len() <= usize::MAX,
        ensures
            counts@.len() == self@.nodes.len(),
            forall|i: int| 0 <= i < counts@.len() ==> #[trigger] counts@[i] == fanout_of(self@.nodes, i as nat),
    {
        let ghost nodes = self@.nodes;
        let mut counts: Vec<usize> = Vec::new();
        let mut n: usize = 0;
        while n < self.nodes.len()
            invariant
                n <= self.nodes@.len(),
                counts@.len() == n,
                forall|i: int| 0 <= i < n ==> counts@[i] == 0,
            decreases self.nodes.len() - n,
        {
            counts.push(0);
            n += 1;
        }
        let mut k: usize = 0;
        while k < self.nodes.len()
            invariant
                k <= self.nodes@.len(),
                nodes == self@.nodes,
                nodes == node_models(self.nodes@),
                well_founded(nodes),
                2 * nodes.len() <= usize::MAX,
                counts@.len() == nodes.len(),
                forall|i: int| 0 <= i < counts@.len() ==> #[trigger] counts@[i] == fanout_of(
                    nodes.take(k as int),
                    i as nat,
                ),
            decreases self.nodes.len() - k,
        {
            let ghost before = counts@;
            proof {
                assert(nodes.take(k + 1).drop_last() =~= nodes.take(k as int));
                assert(nodes.take(k + 1).last() == nodes[k as int]);
                assert(nodes[k as int] == self.nodes@[k as int].kind@);
                assert forall|i: int| 0 <= i < before.len() implies #[trigger] before[i] <= 2 * k by {
                    lemma_fanout_bound(nodes.take(k as int), i as nat);
                }
            }
            match &self.nodes[k].kind {
                CircuitNodeKind::Input { .. } => {},
                CircuitNodeKind::Const { .. } => {},
                CircuitNodeKind::Not { input } => {
                    let c: usize = counts[input.0];
                    counts.set(input.0, c + 1);
                },
                CircuitNodeKind::Or { lhs, rhs } => {
                    let c: usize = counts[lhs.0];
                    counts.set(lhs.0, c + 1);
                    let d: usize = counts[rhs.0];
                    counts.set(rhs.0, d + 1);
                },
            }
            proof {
                assert forall|i: int| 0 <= i < counts@.len() implies #[trigger] counts@[i] == fanout_of(
                    nodes.take(k + 1),
                    i as nat,
                ) by {
                    assert(before[i] == fanout_of(nodes.take(k as int), i as nat));
                }
            }
            k += 1;
        }
        assert(nodes.take(k as int) =~= nodes);
        counts
    }

    /// The length of the longest chain of gates that ends in each node.
    pub fn depths(&self) -> (depths: Vec<usize>)
        requires
            self.wf(),
        ensures
            depths@.len() == self@.nodes.len(),
            forall|i: int| 0 <= i < depths@.len() ==> #[trigger] depths@[i] == node_depth(self@.nodes, i as nat),
            forall|i: int| 0 <= i < depths@.len() ==> #[trigger] depths@[i] <= i,
    {
        let ghost nodes = self@.nodes;
        let mut depths: Vec<usize> = Vec::new();
        let mut k: usize = 0;
        while k < self.nodes.len()
            invariant
                k <= self.nodes@.len(),
                nodes == self@.nodes,
                nodes == node_models(self.nodes@),
                well_founded(nodes),
                depths@.len() == k,
                forall|i: int| 0 <= i < k ==> #[trigger] depths@[i] == node_depth(nodes, i as nat),
                forall|i: int| 0 <= i < k ==> #[trigger] depths@[i] <= i,
            decreases self.nodes.len() - k,
        {
            assert(nodes[k as int] == self.nodes@[k as int].kind@);
            let depth: usize = match &self.nodes[k].kind {
                CircuitNodeKind::Input { .. } => 0,
                CircuitNodeKind::Const { .. } => 0,
                CircuitNodeKind::Not { input } => depths[input.0] + 1,
                CircuitNodeKind::Or { lhs, rhs } => {
                    let l: usize = depths[lhs.0];
                    let r: usize = depths[rhs.0];
                    if l >= r {
                        l + 1
                    } else {
                        r + 1
                    }
                },
            };
            depths.push(depth);
            k += 1;
        }
        depths
    }
}

proof fn lemma_fanout_bound(nodes: Seq<NodeModel>, i: nat)
    ensures
        fanout_of(nodes, i) <= 2 * nodes.len(),
    decreases nodes.len(),
{
    if nodes.len() > 0 {
        lemma_fanout_bound(nodes.drop_last(), i);
    }
}

/// A gate lies deeper than each of its operands.
pub proof fn law_depths_are_topological(nodes: Seq<NodeModel>, i: nat)
    requires
        well_founded(nodes),
        i < nodes.len(),
    ensures
        match nodes[i as int] {
            NodeModel::Not(input) => node_depth(nodes, i) > node_depth(nodes, input),
            NodeModel::Or(lhs, rhs) => node_depth(nodes, i) > node_depth(nodes, lhs) && node_depth(nodes, i)
                > node_depth(nodes, rhs),
            _ => node_depth(nodes, i) == 0,
        },
{
}

/// The positions as numbers.
pub open spec fn positions(ids: Seq<NodeId>) -> Seq<nat> {
    Seq::new(ids.len(), |i: int| ids[i].0 as nat)
}

#[derive(Debug)]
struct CircuitBuilder {
    nodes: Vec<CircuitNode>,
}

impl View for CircuitBuilder {
    type V = Seq<NodeModel>;

    closed spec fn view(&self) -> Seq<NodeModel> {
        node_models(self.nodes@)
    }
}

impl CircuitBuilder {
    spec fn wf(&self) -> bool {
        numbered(self.nodes@)
    }

    fn push(&mut self, kind: CircuitNodeKind) -> (id: NodeId)
        requires
            old(self).wf(),
        ensures
            final(self).wf(),
            id.0 == old(self)@.len(),
            final(self)@ == old(self)@.push(kind@),
    {
        let id: NodeId = NodeId(self.nodes.len());
        let ghost model = kind@;
        self.nodes.push(CircuitNode { id, kind });
        assert(self@ =~= old(self)@.push(model));
        id
    }

    fn input(&mut self, name: String) -> (id: NodeId)
        requires
            old(self).wf(),
        ensures
            final(self).wf(),
            id.0 == old(self)@.len(),
            final(self)@ == old(self)@.push(NodeModel::Input(name@)),
    {
        self.push(CircuitNodeKind::Input { name })
    }

    fn constant(&mut self, value: bool) -> (id: NodeId)
        requires
            old(self).wf(),
        ensures
            final(self).wf(),
            id.0 == old(self)@.len(),
            final(self)@ == old(self)@.push(NodeModel::Const(value)),
    {
        self.push(CircuitNodeKind::Const { value })
    }

    fn not(&mut self, input: NodeId) -> (id: NodeId)
        requires
            old(self).wf(),
        ensures
            final(self).wf(),
            id.0 == old(self)@.len(),
            final(self)@ == old(self)@.push(NodeModel::Not(input.0 as nat)),
    {
        self.push(CircuitNodeKind::Not { input })
    }

    fn or(&mut self, lhs: NodeId, rhs: NodeId) -> (id: NodeId)
        requires
            old(self).wf(),
        ensures
            final(self).wf(),
            id.0 == old(self)@.len(),
            final(self)@ == old(self)@.push(NodeModel::Or(lhs.0 as nat, rhs.0 as nat)),
    {
        self.push(CircuitNodeKind::Or { lhs, rhs })
    }

    fn or_many(&mut self, nodes: &Vec<NodeId>) -> (root: NodeId)
        requires
            old(self).wf(),
        ensures
            final(self).wf(),
            (final(self)@, root.0 as nat) == or_gates(old(self)@, positions(nodes@)),
    {
        if nodes.len() == 0 {
            self.constant(false)
        } else if nodes.len() == 1 {
            nodes[0]
        } else {
            self.reduce_balanced(nodes)
        }
    }

    fn and_many(&mut self, nodes: &Vec<NodeId>) -> (root: NodeId)
        requires
            old(self).wf(),
        ensures
            final(self).wf(),
            (final(self)@, root.0 as nat) == and_gates(old(self)@, positions(nodes@)),
    {
        if nodes.len() == 0 {
            return self.constant(true);
        }
        if nodes.len() == 1 {
            return nodes[0];
        }
        let ghost start = self@;
        let ghost ids = positions(nodes@);
        let mut negated: Vec<NodeId> = Vec::new();
        let mut k: usize = 0;
        assert(positions(negated@) =~= Seq::<nat>::empty());
        while k < nodes.len()
            invariant
                k <= nodes@.len(),
                self.wf(),
                ids == positions(nodes@),
                (self@, positions(negated@)) == not_gates(start, ids, k as nat),
            decreases nodes.len() - k,
        {
            let ghost before = negated@;
            let head: NodeId = self.not(nodes[k]);
            negated.push(head);
            assert(positions(negated@) =~= positions(before).push(head.0 as nat));
            k += 1;
        }
        let root: NodeId = self.or_many(&negated);
        self.not(root)
    }

    fn reduce_balanced(&mut self, nodes: &Vec<NodeId>) -> (root: NodeId)
        requires
            old(self).wf(),
            nodes@.len() > 0,
        ensures
            final(self).wf(),
            (final(self)@, root.0 as nat) == balanced_or(old(self)@, positions(nodes@)),
    {
        let ghost start = self@;
        let mut current: Vec<NodeId> = Vec::new();
        let mut k: usize = 0;
        while k < nodes.len()
            invariant
                k <= nodes@.len(),
                current@ == nodes@.take(k as int),
            decreases nodes.len() - k,
        {
            current.push(nodes[k]);
            assert(current@ =~= nodes@.take(k + 1));
            k += 1;
        }
        assert(current@ =~= nodes@);
        while current.len() > 1
            invariant
                self.wf(),
                current@.len() > 0,
                balanced_or(self@, positions(current@)) == balanced_or(start, positions(nodes@)),
            decreases current.len(),
        {
            let ghost grown = self@;
            let ghost ids = positions(current@);
            let mut next: Vec<NodeId> = Vec::new();
            let mut p: usize = 0;
            assert(positions(next@) =~= Seq::<nat>::empty());
            let n: usize = current.len();
            while p < n / 2
                invariant
                    n == current@.len(),
                    p <= n / 2,
                    self.wf(),
                    ids == positions(current@),
                    (self@, positions(next@)) == pair_gates(grown, ids, p as nat),
                decreases n / 2 - p,
            {
                let ghost before = next@;
                let head: NodeId = self.or(current[2 * p], current[2 * p + 1]);
                next.push(head);
                assert(positions(next@) =~= positions(before).push(head.0 as nat));
                p += 1;
            }
            if n % 2 == 1 {
                let ghost before = next@;
                next.push(current[n - 1]);
                assert(positions(next@) =~= positions(before).push(ids.last()));
            }
            proof {
                assert((self@, positions(next@)) == halve_gates(grown, ids));
                lemma_halve_gates_len(grown, ids);
            }
            current = next;
        }
        current[0]
    }
}

} // verus!
