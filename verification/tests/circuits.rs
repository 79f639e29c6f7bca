use rev_gol_proof::circuit::{Circuit, CircuitNodeKind, Clause, CnfFormula, Literal};
use rev_gol_proof::strmap::StrMap;

fn values(pairs: &[(&str, bool)]) -> StrMap<bool> {
    let mut map = StrMap::new();
    for (name, value) in pairs {
        map.insert(name.to_string(), *value);
    }
    map
}

#[test]
fn test_cnf_variables_are_collected_sorted() {
    let formula = CnfFormula::new(vec![
        Clause::new(vec![Literal::positive("b"), Literal::negative("a")]),
        Clause::new(vec![Literal::positive("c")]),
    ]);

    assert_eq!(formula.variables(), vec!["a".to_string(), "b".to_string(), "c".to_string()]);
}

#[test]
fn test_circuit_from_cnf_reuses_input_nodes() {
    let formula = CnfFormula::new(vec![
        Clause::new(vec![Literal::positive("x"), Literal::negative("y")]),
        Clause::new(vec![Literal::negative("x")]),
    ]);
    let circuit = Circuit::from_cnf(&formula);

    assert_eq!(circuit.inputs().len(), 2);
    let fanout = circuit.fanout_counts();
    assert!(fanout[circuit.inputs().get("x").unwrap().0] >= 2);
    assert!(fanout[circuit.inputs().get("y").unwrap().0] >= 1);
}

#[test]
fn test_cnf_evaluation_matches_expected_truth_values() {
    let formula = CnfFormula::new(vec![
        Clause::new(vec![Literal::positive("x"), Literal::negative("y")]),
        Clause::new(vec![Literal::positive("y")]),
    ]);

    let false_case = values(&[("x", false), ("y", false)]);
    let true_case = values(&[("x", true), ("y", true)]);

    assert!(!formula.evaluate(&false_case));
    assert!(formula.evaluate(&true_case));
}

#[test]
fn test_circuit_depths_are_topological() {
    let formula = CnfFormula::new(vec![Clause::new(vec![
        Literal::positive("x"),
        Literal::negative("y"),
        Literal::positive("z"),
    ])]);
    let circuit = Circuit::from_cnf(&formula);
    let depths = circuit.depths();

    for node in circuit.nodes() {
        match node.kind {
            CircuitNodeKind::Input { .. } | CircuitNodeKind::Const { .. } => {
                assert_eq!(depths[node.id.0], 0);
            }
            CircuitNodeKind::Not { input } => assert!(depths[node.id.0] > depths[input.0]),
            CircuitNodeKind::Or { lhs, rhs } => {
                assert!(depths[node.id.0] > depths[lhs.0]);
                assert!(depths[node.id.0] > depths[rhs.0]);
            }
        }
    }
}

#[test]
fn variables_are_listed_once_in_order() {
    let formula = CnfFormula::new(vec![
        Clause::new(vec![Literal::positive("x2"), Literal::negative("x10")]),
        Clause::new(vec![Literal::negative("x2"), Literal::positive("x1")]),
    ]);

    assert_eq!(formula.variables(), vec!["x1".to_string(), "x10".to_string(), "x2".to_string()]);
}

#[test]
fn missing_variables_are_false() {
    let formula = CnfFormula::new(vec![Clause::new(vec![Literal::negative("x")])]);

    assert!(formula.evaluate(&values(&[])));
    assert!(!formula.evaluate(&values(&[("x", true)])));
}

#[test]
fn the_empty_formula_holds_and_the_empty_clause_does_not() {
    let empty = CnfFormula::new(vec![]);
    assert!(empty.evaluate(&values(&[])));

    let contradiction = CnfFormula::new(vec![Clause::new(vec![])]);
    assert!(!contradiction.evaluate(&values(&[])));
}

#[test]
fn a_repeated_literal_keeps_one_input() {
    let formula = CnfFormula::new(vec![Clause::new(vec![Literal::positive("x"), Literal::positive("x")])]);
    let circuit = Circuit::from_cnf(&formula);

    assert_eq!(circuit.inputs().len(), 1);
    let x = *circuit.inputs().get("x").unwrap();
    assert_eq!(circuit.fanout_counts()[x.0], 2);
    assert_eq!(circuit.node(x).id, x);
    assert_eq!(circuit.depths()[circuit.output().0], 1);
}

#[test]
fn formulas_are_compared_and_copied_by_their_clauses() {
    let formula = CnfFormula::new(vec![Clause::new(vec![Literal::positive("x"), Literal::negative("y")])]);

    assert_eq!(formula, formula.clone());
    assert_ne!(formula, CnfFormula::default());
    assert_eq!(CnfFormula::default(), CnfFormula::new(Vec::new()));
    assert_ne!(Literal::positive("x"), Literal::negative("x"));
    assert_eq!(Circuit::from_cnf(&formula), Circuit::from_cnf(&formula).clone());
}
