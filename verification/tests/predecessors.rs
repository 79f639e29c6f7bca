use rev_gol_proof::clock::is_over;
use rev_gol_proof::gadget_verifier::{
    CellLiteral, GadgetPattern, GadgetVerifier, GadgetVerifierConfig, Port, PortAssignment, VerifierError,
};
use rev_gol_proof::grid::Grid;
use rev_gol_proof::settings::BoundaryCondition;
use rev_gol_proof::strmap::StrMap;

fn blinker_gadget() -> GadgetPattern {
    let target = Grid::from_cells(
        vec![
            vec![false, false, false],
            vec![true, true, true],
            vec![false, false, false],
        ],
        BoundaryCondition::Dead,
    )
    .unwrap();

    GadgetPattern::new("blinker", target)
        .with_port(
            Port::new("top")
                .with_state("alive", vec![CellLiteral::alive(1, 0)])
                .with_state("dead", vec![CellLiteral::dead(1, 0)]),
        )
        .with_port(
            Port::new("mid")
                .with_state("alive", vec![CellLiteral::alive(1, 1)])
                .with_state("dead", vec![CellLiteral::dead(1, 1)]),
        )
        .with_port(
            Port::new("bot")
                .with_state("alive", vec![CellLiteral::alive(1, 2)])
                .with_state("dead", vec![CellLiteral::dead(1, 2)]),
        )
        .with_base_predecessor_literals(vec![
            CellLiteral::dead(0, 0),
            CellLiteral::dead(2, 0),
            CellLiteral::dead(0, 1),
            CellLiteral::dead(2, 1),
            CellLiteral::dead(0, 2),
            CellLiteral::dead(2, 2),
        ])
}

fn all_states(state: &str) -> PortAssignment {
    PortAssignment::new().with_state("top", state).with_state("mid", state).with_state("bot", state)
}

#[test]
fn test_check_assignment_accepts_known_blinker_predecessor() {
    let tester = GadgetVerifier::new(GadgetVerifierConfig::default());
    let gadget = blinker_gadget();
    let assignment = PortAssignment::new()
        .with_state("top", "alive")
        .with_state("mid", "alive")
        .with_state("bot", "alive");

    assert!(tester.check_assignment(&gadget, &assignment).unwrap());
}

#[test]
fn test_check_assignment_rejects_incompatible_predecessor() {
    let tester = GadgetVerifier::new(GadgetVerifierConfig::default());
    let gadget = blinker_gadget();
    let assignment = PortAssignment::new()
        .with_state("top", "dead")
        .with_state("mid", "dead")
        .with_state("bot", "dead");

    assert!(!tester.check_assignment(&gadget, &assignment).unwrap());
}

#[test]
fn test_verify_relation_reports_allowed_and_forbidden_cases() {
    let tester = GadgetVerifier::new(GadgetVerifierConfig::default());
    let gadget = blinker_gadget();
    let allowed = vec![PortAssignment::new()
        .with_state("top", "alive")
        .with_state("mid", "alive")
        .with_state("bot", "alive")];
    let forbidden = vec![PortAssignment::new()
        .with_state("top", "dead")
        .with_state("mid", "dead")
        .with_state("bot", "dead")];

    let report = tester.verify_relation(&gadget, &allowed, &forbidden).unwrap();

    assert!(report.allowed_assignments_hold);
    assert!(report.forbidden_assignments_hold);
}

#[test]
fn test_enumerate_assignments_builds_cartesian_product() {
    let tester = GadgetVerifier::new(GadgetVerifierConfig::default());
    let gadget = blinker_gadget();
    let mut choices = StrMap::new();
    choices.insert("top".to_string(), vec!["alive".to_string(), "dead".to_string()]);
    choices.insert("mid".to_string(), vec!["alive".to_string(), "dead".to_string()]);
    let assignments = tester.enumerate_assignments(&gadget, &choices).unwrap();

    assert_eq!(assignments.len(), 4);
}

#[test]
fn test_projected_port_states_cover_known_blinker_options() {
    let tester = GadgetVerifier::new(GadgetVerifierConfig::default());
    let gadget = blinker_gadget();
    let projected = tester
        .enumerate_projected_port_states(
            &gadget,
            &PortAssignment::new(),
            &vec!["top".to_string(), "mid".to_string(), "bot".to_string()],
        )
        .unwrap();

    assert!(projected.iter().any(|state| {
        state.states.get("top") == Some(&Some("alive".to_string()))
            && state.states.get("mid") == Some(&Some("alive".to_string()))
            && state.states.get("bot") == Some(&Some("alive".to_string()))
    }));
}

#[test]
fn the_states_of_a_port_are_listed_in_order() {
    let gadget = blinker_gadget();

    assert_eq!(gadget.ports[0].state_names(), vec!["alive".to_string(), "dead".to_string()]);
    assert_eq!(gadget.ports[0].literals_for_state("dead").unwrap().len(), 1);
}

#[test]
fn all_states_are_chosen_where_none_is_given() {
    let tester = GadgetVerifier::new(GadgetVerifierConfig::default());
    let mut choices = StrMap::new();
    choices.insert("top".to_string(), vec![]);
    let assignments = tester.enumerate_assignments(&blinker_gadget(), &choices).unwrap();

    assert_eq!(assignments.len(), 2);
}

#[test]
fn questions_that_make_no_sense_are_reported() {
    let tester = GadgetVerifier::new(GadgetVerifierConfig::default());
    let gadget = blinker_gadget();

    let port = tester.check_assignment(&gadget, &PortAssignment::new().with_state("side", "alive")).unwrap_err();
    assert!(matches!(port, VerifierError::UnknownPort { .. }));
    assert!(port.to_string().contains("side"));

    let state = tester.check_assignment(&gadget, &PortAssignment::new().with_state("top", "asleep")).unwrap_err();
    assert!(matches!(state, VerifierError::UnknownState { .. }));

    let conflicting = blinker_gadget().with_base_predecessor_literals(vec![CellLiteral::alive(1, 0)]);
    let conflict = tester.check_assignment(&conflicting, &all_states("dead")).unwrap_err();
    assert!(matches!(conflict, VerifierError::Conflict { .. }));

    let far = blinker_gadget().with_base_predecessor_literals(vec![CellLiteral::alive(9, 9)]);
    let outside = tester.check_assignment(&far, &all_states("alive")).unwrap_err();
    assert!(matches!(outside, VerifierError::OutsideDomain { .. }));

    let hidden = blinker_gadget().with_port(Port::new("far").with_state("alive", vec![CellLiteral::alive(9, 9)]));
    let unseen = tester
        .enumerate_projected_port_states(&hidden, &PortAssignment::new(), &vec!["far".to_string()])
        .unwrap_err();
    assert!(matches!(unseen, VerifierError::NoVariable { .. }));
}

#[test]
fn a_charging_rule_holds_where_every_output_has_a_name() {
    let tester = GadgetVerifier::new(GadgetVerifierConfig::default());
    let outputs = vec!["top".to_string(), "bot".to_string()];
    let check = tester.verify_charging_rule(&blinker_gadget(), &PortAssignment::new(), &outputs).unwrap();

    assert!(check.all_outputs_are_named_states);
    assert_eq!(check.output_ports, outputs);
    assert!(!check.observed_outputs.is_empty());

    let unnamed = blinker_gadget().with_port(
        Port::new("both").with_state("dead", vec![CellLiteral::dead(1, 0), CellLiteral::dead(1, 1)]),
    );
    let failed = tester.verify_charging_rule(&unnamed, &PortAssignment::new(), &vec!["both".to_string()]).unwrap();
    assert!(!failed.all_outputs_are_named_states);
}

#[test]
fn the_only_predecessor_of_the_blinker_row_within_a_column() {
    let tester = GadgetVerifier::new(GadgetVerifierConfig::default());
    let gadget = blinker_gadget();
    let mut allowed = 0;
    for mask in 0..8 {
        let state = |bit: i32| if mask & bit != 0 { "alive" } else { "dead" };
        let assignment = PortAssignment::new()
            .with_state("top", state(1))
            .with_state("mid", state(2))
            .with_state("bot", state(4));
        if tester.check_assignment(&gadget, &assignment).unwrap() {
            allowed += 1;
            assert_eq!(mask, 7);
        }
    }
    assert_eq!(allowed, 1);
}

#[test]
fn a_search_ends_when_its_time_is_up() {
    let tester = GadgetVerifier::new(GadgetVerifierConfig { timeout: Some(0), ..GadgetVerifierConfig::default() });
    let error = tester.check_assignment(&blinker_gadget(), &all_states("alive")).unwrap_err();

    assert!(matches!(error, VerifierError::TimedOut));
    assert_eq!(error.to_string(), "The search for a predecessor ran out of time");
    assert!(matches!(
        tester.enumerate_projected_port_states(&blinker_gadget(), &all_states("alive"), &vec!["top".to_string()]),
        Err(VerifierError::TimedOut)
    ));
}

#[test]
fn a_question_without_sense_takes_no_time() {
    let tester = GadgetVerifier::new(GadgetVerifierConfig { timeout: Some(0), ..GadgetVerifierConfig::default() });
    let assignment = PortAssignment::new().with_state("side", "alive");

    assert!(matches!(
        tester.check_assignment(&blinker_gadget(), &assignment),
        Err(VerifierError::UnknownPort { .. })
    ));
}

#[test]
fn a_search_with_time_enough_comes_to_its_answer() {
    let tester = GadgetVerifier::new(GadgetVerifierConfig { timeout: Some(86_400), ..GadgetVerifierConfig::default() });

    assert!(tester.check_assignment(&blinker_gadget(), &all_states("alive")).unwrap());
    assert!(!tester.check_assignment(&blinker_gadget(), &all_states("dead")).unwrap());
}

#[test]
fn time_is_up_when_the_limit_is_reached() {
    assert!(!is_over(None, u128::MAX));
    assert!(!is_over(Some(2), 1_999_999_999));
    assert!(is_over(Some(2), 2_000_000_000));
    assert!(is_over(Some(0), 0));
}
