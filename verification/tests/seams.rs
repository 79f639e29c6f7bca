use rev_gol_proof::audit::{HorizontalMotifFamily, VerticalMotifFamily};
use rev_gol_proof::calibration::{horizontal_job, vertical_job, CalibrationJob, CalibrationState};
use rev_gol_proof::composites::{composite_relation, LoadedPiece, SharedPort};
use rev_gol_proof::compositions::{
    count_composition_candidates, search_composed_pattern_positions, search_composed_pattern_positions_with_progress,
    CompositionError, CompositionSearchPiece,
};
use rev_gol_proof::circuit::{Clause, CnfFormula, Literal};
use rev_gol_proof::compiler::ConstructionCompiler;
use rev_gol_proof::discharge::{
    discharge_horizontal_interface_family, discharge_routing_witness_interfaces, discharge_vertical_interface_family,
};
use rev_gol_proof::gadget_verifier::{GadgetVerifier, GadgetVerifierConfig, VerifierError};
use rev_gol_proof::interface_error::InterfaceError;
use rev_gol_proof::interfaces::{InterfaceBasisCertificate, InterfaceBasisEntry};
use rev_gol_proof::library::{published_part1_specs, published_spec_named, PublishedSpec};
use rev_gol_proof::published::{PatternError, PatternFiles};
use rev_gol_proof::routing::{construct_routing_witness, HorizontalInterfaceFamily, VerticalInterfaceFamily};
use rev_gol_proof::wholes::{build_composite_gadget, InterfacePlacement};

/// The text of a pattern of twelve by twelve cells, with a wire of the given phase at each
/// edge that has one: a block of four wire cells, on a strip that reaches the edge.
fn pattern_text(align: (Option<i8>, Option<i8>, Option<i8>, Option<i8>)) -> String {
    let mut rows = vec![vec![0u8; 12]; 12];
    let depth = |phase: i8| -> usize {
        match phase {
            1 => 0,
            -1 => 1,
            _ => 2,
        }
    };
    let height = |phase: i8| -> usize {
        match phase {
            -1 => 10,
            1 => 9,
            _ => 8,
        }
    };
    if let Some(phase) = align.2 {
        let x = depth(phase);
        for y in 5..7 {
            for k in 0..x {
                rows[y][k] = 2;
            }
            rows[y][x] = 1;
            rows[y][x + 1] = 1;
        }
    }
    if let Some(phase) = align.0 {
        let x = height(phase);
        for y in 5..7 {
            for k in x..12 {
                rows[y][k] = 2;
            }
            rows[y][x] = 1;
            rows[y][x + 1] = 1;
        }
    }
    if let Some(phase) = align.1 {
        let y = depth(phase);
        for x in 5..7 {
            for k in 0..y {
                rows[k][x] = 2;
            }
            rows[y][x] = 1;
            rows[y + 1][x] = 1;
        }
    }
    if let Some(phase) = align.3 {
        let y = height(phase);
        for x in 5..7 {
            for k in y..12 {
                rows[k][x] = 2;
            }
            rows[y][x] = 1;
            rows[y + 1][x] = 1;
        }
    }
    let mut text = String::new();
    for row in rows {
        for value in row {
            text.push_str(&value.to_string());
        }
        text.push('\n');
    }
    text
}

/// A stand-in for every pattern of the library: it has the wires that the library says, at
/// the phases that the library says.
fn library_files() -> PatternFiles {
    let mut files = PatternFiles::new();
    for spec in published_part1_specs() {
        let align = match spec.align {
            Some(align) => align,
            None => {
                let phase = |wire: char| {
                    if spec.relation_wires.contains(wire) {
                        Some(0)
                    } else {
                        None
                    }
                };
                (phase('E'), phase('N'), phase('W'), phase('S'))
            }
        };
        assert!(files.add_file(spec.path, pattern_text(align)));
    }
    files
}

#[test]
fn test_symbolic_horizontal_wire_family_relation() {
    let files = library_files();
    let family = HorizontalInterfaceFamily {
        left_spec_name: "horizontal wire tile",
        connector_spec_name: "connector 0 to 0",
        right_spec_name: "horizontal wire tile",
        count: 1,
    };
    let left = LoadedPiece::load(&files, "left", family.left_spec_name).unwrap();
    let connector = LoadedPiece::load(&files, "connector", family.connector_spec_name).unwrap();
    let right = LoadedPiece::load(&files, "right", family.right_spec_name).unwrap();
    let relation = composite_relation(
        &vec![&left, &connector, &right],
        &vec![
            SharedPort::new("left", "E", "connector", "W"),
            SharedPort::new("connector", "E", "right", "W"),
        ],
    );
    assert_eq!(relation.external_ports, vec!["left_W".to_string(), "right_E".to_string()]);
    assert_eq!(relation.allowed.len(), 2);
    assert_eq!(relation.forbidden.len(), 2);
}

#[test]
fn test_symbolic_vertical_wire_family_relation() {
    let files = library_files();
    let family = VerticalInterfaceFamily {
        top_spec_name: "vertical wire tile",
        bottom_spec_name: "vertical wire tile",
        count: 1,
    };
    let top = LoadedPiece::load(&files, "top", family.top_spec_name).unwrap();
    let bottom = LoadedPiece::load(&files, "bottom", family.bottom_spec_name).unwrap();
    let relation = composite_relation(&vec![&top, &bottom], &vec![SharedPort::new("top", "S", "bottom", "N")]);
    assert_eq!(relation.external_ports, vec!["top_N".to_string(), "bottom_S".to_string()]);
    assert_eq!(relation.allowed.len(), 2);
    assert_eq!(relation.forbidden.len(), 2);
}

#[test]
fn pieces_that_cannot_be_loaded_are_reported() {
    let files = library_files();
    assert!(matches!(
        LoadedPiece::load(&files, "left", "no such tile"),
        Err(InterfaceError::UnknownSpec { ref name }) if name == "no such tile"
    ));
    let error = LoadedPiece::load(&PatternFiles::new(), "left", "crossing tile").unwrap_err();
    assert!(matches!(error, InterfaceError::Pattern { error: PatternError::MissingFile { .. } }));
    assert!(!error.to_string().is_empty());

    let wire = LoadedPiece::load(&files, "left", "horizontal wire tile").unwrap();
    assert!(wire.anchor("E").is_ok());
    assert!(matches!(wire.anchor("N"), Err(InterfaceError::MissingAnchor { .. })));
}

#[test]
fn a_whole_needs_a_place_for_each_piece() {
    let files = library_files();
    let left = LoadedPiece::load(&files, "left", "horizontal wire tile").unwrap();
    let right = LoadedPiece::load(&files, "right", "horizontal wire tile").unwrap();
    let shared = vec![SharedPort::new("left", "E", "right", "W")];

    let placement = InterfacePlacement {
        piece_origins: vec![("left".to_string(), 0, 0), ("right".to_string(), 12, 0)],
    };
    let gadget = build_composite_gadget("pair", &vec![&left, &right], &placement, &shared).unwrap();
    assert_eq!((gadget.target.width, gadget.target.height), (24, 12));
    assert_eq!(gadget.name, "pair");
    assert_eq!(gadget.ports.len(), 2);

    let missing = InterfacePlacement { piece_origins: vec![("left".to_string(), 0, 0)] };
    assert!(matches!(
        build_composite_gadget("pair", &vec![&left, &right], &missing, &shared),
        Err(InterfaceError::MissingPlacement { role: "right" })
    ));

    let twice = InterfacePlacement {
        piece_origins: vec![("left".to_string(), 0, 0), ("left".to_string(), 1, 0)],
    };
    assert!(matches!(
        build_composite_gadget("pair", &vec![&left, &right], &twice, &shared),
        Err(InterfaceError::DuplicatePlacement { .. })
    ));
}

#[test]
fn a_family_without_candidates_makes_no_entry() {
    let files = library_files();
    let tester = GadgetVerifier::new(GadgetVerifierConfig::default());
    let across = HorizontalInterfaceFamily {
        left_spec_name: "horizontal wire tile",
        connector_spec_name: "connector 0 to 0",
        right_spec_name: "horizontal wire tile",
        count: 3,
    };
    let report = discharge_horizontal_interface_family(&files, &tester, &across, Some(0)).unwrap();
    assert_eq!(report.count, 3);
    assert_eq!(report.expected_allowed_rows, 2);
    assert!(!report.is_success());
    assert!(InterfaceBasisEntry::from_report(&report).is_err());
    assert!(!report.render_summary_line().is_empty());

    let down = VerticalInterfaceFamily {
        top_spec_name: "vertical wire tile",
        bottom_spec_name: "vertical wire tile",
        count: 1,
    };
    let report = discharge_vertical_interface_family(&files, &tester, &down, Some(0)).unwrap();
    assert!(!report.is_success());
    assert_eq!(report.external_ports, vec!["top_N".to_string(), "bottom_S".to_string()]);
}

#[test]
fn candidates_are_counted() {
    assert_eq!(count_composition_candidates(&vec![]), 1);
    let pieces = vec![
        CompositionSearchPiece::fixed("crossing tile", 0, 0),
        CompositionSearchPiece::with_options("crossing tile", vec![1, 2, 3], vec![4, 5]),
    ];
    assert_eq!(count_composition_candidates(&pieces), 6);
}

#[test]
fn a_search_needs_pieces_of_the_library() {
    let files = library_files();
    let tester = GadgetVerifier::new(GadgetVerifierConfig::default());
    let spec = PublishedSpec {
        path: "",
        name: "test",
        size: None,
        align: None,
        charging: vec![],
        relation_wires: "",
        relation_items: vec![],
    };

    let nothing = search_composed_pattern_positions(&tester, &files, &vec![], &spec, 1);
    assert!(matches!(nothing, Err(CompositionError::Pattern { error: PatternError::NoPieces })));

    let unknown = vec![CompositionSearchPiece::fixed("no such tile", 0, 0)];
    let mut progress = Vec::new();
    let failed =
        search_composed_pattern_positions_with_progress(&tester, &files, &unknown, &spec, 1, &mut progress);
    assert!(matches!(failed, Err(CompositionError::Pattern { error: PatternError::UnknownSpec { .. } })));
}

#[test]
fn the_families_of_a_routing_are_tested_one_by_one() {
    let files = library_files();
    let tester = GadgetVerifier::new(GadgetVerifierConfig::default());
    let formula = CnfFormula::new(vec![Clause::new(vec![Literal::positive("x")])]);
    let construction = ConstructionCompiler::compile_cnf(&formula).unwrap();
    let witness = construct_routing_witness(&files, &construction).unwrap();

    let summary =
        discharge_routing_witness_interfaces(&files, &tester, &witness, true, true, None, Some(0)).unwrap();
    assert_eq!(summary.horizontal.len(), witness.horizontal_families.len());
    assert_eq!(summary.vertical.len(), witness.vertical_families.len());
    assert!(!summary.is_success());
    assert!(InterfaceBasisCertificate::from_summary(&summary).is_err());

    let crossings =
        discharge_routing_witness_interfaces(&files, &tester, &witness, false, true, Some("crossing tile"), Some(0))
            .unwrap();
    assert!(crossings.horizontal.is_empty());
    assert_eq!(crossings.vertical.len(), 2);
}

/// A straight wire of nine cells stands for the vertical wire tile.
fn upright_wire() -> (PatternFiles, VerticalMotifFamily) {
    let mut files = PatternFiles::new();
    let path = published_spec_named("vertical wire tile").unwrap().path;
    assert!(files.add_file(path, "001100\n".repeat(9)));
    let family = VerticalMotifFamily {
        top_spec: "vertical wire tile".to_string(),
        bottom_spec: "vertical wire tile".to_string(),
        count: 1,
        calibrated: false,
    };
    (files, family)
}

/// Looks at the candidates of a job until there are enough matches.
fn run_job(job: &CalibrationJob, max_results: usize) -> CalibrationState {
    let tester = GadgetVerifier::new(GadgetVerifierConfig::default());
    let mut state = CalibrationState::new();
    while !job.is_done(&state, max_results) {
        job.step(&tester, &mut state).unwrap();
    }
    state
}

#[test]
fn wires_join_where_their_phases_agree() {
    let (files, family) = upright_wire();
    let job = vertical_job(&files, &family, (0, 3)).unwrap_or_else(|error| panic!("{}", error.to_string()));
    assert_eq!(job.label, "vertical wire tile / vertical wire tile");
    assert_eq!(job.candidates, vec![(0, 0), (0, 1), (0, 2), (0, 3), (0, 4), (0, 5), (0, 6)]);

    let state = run_job(&job, 8);
    assert_eq!(state.checked, 7);
    let places: Vec<(isize, isize)> = state
        .matches
        .iter()
        .map(|found| {
            let origins = &found.placement.piece_origins;
            assert_eq!(origins[0], ("top".to_string(), 0, 0));
            assert_eq!(origins[1].0, "bottom");
            (origins[1].1, origins[1].2)
        })
        .collect();
    assert_eq!(places, vec![(0, 0), (0, 3), (0, 6)]);
}

#[test]
fn a_calibration_ends_with_enough_matches() {
    let (files, family) = upright_wire();
    let job = vertical_job(&files, &family, (0, 3)).unwrap_or_else(|error| panic!("{}", error.to_string()));
    let state = run_job(&job, 2);

    assert_eq!(state.checked, 4);
    assert_eq!(state.matches.len(), 2);
    assert_eq!(run_job(&job, 0).checked, 0);
}

#[test]
fn a_calibration_that_cannot_be_tested_ends() {
    let (files, family) = upright_wire();
    let job = vertical_job(&files, &family, (0, 0)).unwrap_or_else(|error| panic!("{}", error.to_string()));
    let tester = GadgetVerifier::new(GadgetVerifierConfig { timeout: Some(0), ..GadgetVerifierConfig::default() });
    let mut state = CalibrationState::new();

    assert!(matches!(
        job.step(&tester, &mut state),
        Err(InterfaceError::Gadget { error: VerifierError::TimedOut })
    ));
    assert_eq!(state.checked, 1);
    assert!(state.matches.is_empty());
}

fn across(left: &str, connector: &str, right: &str) -> HorizontalMotifFamily {
    HorizontalMotifFamily {
        left_spec: left.to_string(),
        connector_name: connector.to_string(),
        right_spec: right.to_string(),
        count: 1,
        calibrated: false,
    }
}

#[test]
fn the_right_piece_is_tried_around_the_end_of_the_connector() {
    let files = library_files();
    let family = across("horizontal wire tile", "connector 0 to 0", "horizontal wire tile");
    let job = horizontal_job(&files, &family, (4, 2)).unwrap_or_else(|error| panic!("{}", error.to_string()));
    let connector = LoadedPiece::load(&files, "connector", "connector 0 to 0").unwrap();
    let right = LoadedPiece::load(&files, "right", "horizontal wire tile").unwrap();
    let east = connector.anchor("E").unwrap();
    let west = right.anchor("W").unwrap();
    let (x, y) = (90 + east.x - west.x, east.y - west.y);

    assert_eq!(job.label, "horizontal wire tile + connector 0 to 0 + horizontal wire tile");
    assert_eq!(job.fixed, vec![(0, 0), (90, 0)]);
    assert_eq!(job.candidates.len(), 45);
    assert_eq!(job.candidates[0], (x - 4, y - 2));
    assert_eq!(job.candidates[1], (x - 4, y - 1));
    assert_eq!(job.candidates[5], (x - 3, y - 2));
    assert_eq!(job.candidates[44], (x + 4, y + 2));
    assert!(horizontal_job(&files, &family, (-1, 2)).map(|job| job.candidates.is_empty()).unwrap_or(false));
}

#[test]
fn families_that_cannot_be_calibrated_are_reported() {
    let files = library_files();
    let fails = |family: HorizontalMotifFamily, margins: (isize, isize)| match horizontal_job(&files, &family, margins) {
        Ok(_) => None,
        Err(error) => Some(error),
    };
    assert!(matches!(
        fails(across("horizontal wire tile", "connector 0 to 0", "no such tile"), (4, 2)),
        Some(InterfaceError::UnknownSpec { name }) if name == "no such tile"
    ));
    assert!(matches!(
        fails(across("horizontal wire tile", "connector 0 to 0", "vertical wire tile"), (4, 2)),
        Some(InterfaceError::MissingAnchor { name: "vertical wire tile", .. })
    ));
    assert!(matches!(
        fails(across("horizontal wire tile", "connector 0 to 0", "horizontal wire tile"), (isize::MAX, 2)),
        Some(InterfaceError::TooLarge)
    ));
    let (few, _) = upright_wire();
    assert!(matches!(
        horizontal_job(&few, &across("vertical wire tile", "connector 0 to 0", "horizontal wire tile"), (4, 2)),
        Err(InterfaceError::Pattern { error: PatternError::MissingFile { .. } })
    ));
}
