use rev_gol_proof::circuit::{Clause, CnfFormula, Literal};
use rev_gol_proof::compiler::{ConstructionCompiler, ConstructionError, Endpoint, InstanceId, MacroKind, PortRef};
use rev_gol_proof::reduction::exhaustive_reduction_report;
use rev_gol_proof::strmap::StrMap;

/// (x1 or not x2) and (x2 or x3).
fn small_formula() -> CnfFormula {
    CnfFormula::new(vec![
        Clause::new(vec![Literal::positive("x1"), Literal::negative("x2")]),
        Clause::new(vec![Literal::positive("x2"), Literal::positive("x3")]),
    ])
}

fn three_values(mask: usize) -> StrMap<bool> {
    let mut map = StrMap::new();
    map.insert("x1".to_string(), (mask & 1) != 0);
    map.insert("x2".to_string(), (mask & 2) != 0);
    map.insert("x3".to_string(), (mask & 4) != 0);
    map
}

#[test]
fn test_compile_cnf_produces_enforcer_sink() {
    let formula = CnfFormula::new(vec![Clause::new(vec![Literal::positive("x")])]);
    let compiled = ConstructionCompiler::compile_cnf(&formula).unwrap();

    assert!(compiled.instances.iter().any(|instance| matches!(instance.kind, MacroKind::Enforcer)));
    assert!(compiled
        .nets
        .iter()
        .any(|net| matches!(net.to, Endpoint::InstancePort(ref p) if p.instance == compiled.output_sink)));
}

#[test]
fn test_compile_cnf_inserts_splitters_for_shared_inputs() {
    let formula = CnfFormula::new(vec![
        Clause::new(vec![Literal::positive("x"), Literal::positive("y")]),
        Clause::new(vec![Literal::negative("x"), Literal::positive("z")]),
    ]);
    let compiled = ConstructionCompiler::compile_cnf(&formula).unwrap();

    assert!(compiled.instances.iter().any(|instance| matches!(instance.kind, MacroKind::Splitter)));
    assert!(compiled.variable_inputs.contains_key("x"));
}

#[test]
fn test_render_blueprint_mentions_instances_and_nets() {
    let formula = CnfFormula::new(vec![Clause::new(vec![Literal::positive("x")])]);
    let compiled = ConstructionCompiler::compile_cnf(&formula).unwrap();
    let blueprint = compiled.render_blueprint();

    assert!(blueprint.contains("Instances:"));
    assert!(blueprint.contains("Nets:"));
    assert!(blueprint.contains("OR gate tile") || blueprint.contains("enforcer gadget"));
}

#[test]
fn test_compiled_construction_matches_formula_truth_table() {
    let formula = small_formula();
    let compiled = ConstructionCompiler::compile_cnf(&formula).unwrap();

    for mask in 0..8usize {
        let assignment = three_values(mask);
        assert_eq!(
            formula.evaluate(&assignment),
            compiled.evaluate(&assignment).unwrap(),
            "assignment {:?} should preserve satisfiability through the compiler",
            assignment
        );
    }
}

#[test]
fn test_exhaustive_report_preserves_truth_table_for_small_formula() {
    let formula = small_formula();

    let report = exhaustive_reduction_report(&formula).unwrap();
    assert!(report.preserves_truth_table());
    assert_eq!(report.formula_is_satisfiable(), report.construction_is_satisfiable());
}

#[test]
fn the_report_lists_all_assignments() {
    let report = exhaustive_reduction_report(&small_formula()).unwrap();

    assert_eq!(report.assignments.len(), 8);
    assert!(report.formula_is_satisfiable());
    assert!(report.construction_is_satisfiable());
    assert_eq!(
        report.assignments.iter().filter(|entry| entry.formula_value).count(),
        (0..8).filter(|mask| (mask & 1 != 0 || mask & 2 == 0) && (mask & 2 != 0 || mask & 4 != 0)).count()
    );
}

#[test]
fn a_contradiction_stays_unsatisfiable() {
    let formula = CnfFormula::new(vec![
        Clause::new(vec![Literal::positive("x")]),
        Clause::new(vec![Literal::negative("x")]),
    ]);
    let report = exhaustive_reduction_report(&formula).unwrap();

    assert_eq!(report.assignments.len(), 2);
    assert!(report.preserves_truth_table());
    assert!(!report.formula_is_satisfiable());
    assert!(!report.construction_is_satisfiable());
}

#[test]
fn the_construction_of_one_variable() {
    let formula = CnfFormula::new(vec![Clause::new(vec![Literal::positive("x")])]);
    let compiled = ConstructionCompiler::compile_cnf(&formula).unwrap();

    assert_eq!(compiled.input_variables(), vec!["x".to_string()]);
    assert_eq!(compiled.instances.len(), 1);
    assert_eq!(compiled.nets.len(), 1);
    assert_eq!(compiled.output_sink, compiled.instances[0].id);
    assert_eq!(compiled.instances[0].kind.published_spec_name(), Some("enforcer gadget"));
    assert!(compiled.render_blueprint().contains("\"x\""));
}

#[test]
fn an_input_without_a_value_is_reported() {
    let compiled = ConstructionCompiler::compile_cnf(&small_formula()).unwrap();
    let mut partial = StrMap::new();
    partial.insert("x1".to_string(), true);

    let error = compiled.evaluate(&partial).unwrap_err();
    assert!(matches!(error, ConstructionError::MissingAssignment { ref variable } if variable.as_str() == "x2"));
    assert!(error.to_string().contains("x2"));
}

#[test]
fn conflicting_values_are_reported() {
    let port = PortRef { instance: InstanceId(0), port: "in" };
    let on_a_net = ConstructionError::ConflictingValues {
        end: Endpoint::InstancePort(port),
        existing: true,
        value: false,
    };
    let derived = ConstructionError::ConflictingDerivedValues {
        end: Endpoint::InstancePort(port),
        existing: true,
        value: false,
    };

    assert!(on_a_net.to_string().starts_with("Conflicting values on "));
    assert!(derived.to_string().starts_with("Conflicting derived values on "));
}

#[test]
fn no_instance_and_no_input_drives_two_ends() {
    let compiled = ConstructionCompiler::compile_cnf(&small_formula()).unwrap();

    for (i, first) in compiled.nets.iter().enumerate() {
        for second in compiled.nets.iter().skip(i + 1) {
            assert!(!first.from.same(&second.from));
            assert!(!first.to.same(&second.to));
        }
    }
    let (width, height) = compiled.bounds();
    for instance in &compiled.instances {
        assert!(instance.column < width);
        assert!(instance.row < height);
    }
}
