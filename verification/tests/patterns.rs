use rev_gol_proof::gadget_verifier::{GadgetVerifier, GadgetVerifierConfig, VerifierError};
use rev_gol_proof::gadgets::{rev_gol_to_sat_gadgets, sat_to_rev_gol_required_gadgets, GadgetStatus};
use rev_gol_proof::library::{
    published_basic_specs, published_connector_specs, published_part1_specs, published_spec_named, published_tile_specs,
    PublishedSize, PublishedSpec,
};
use rev_gol_proof::published::{
    compose_published_patterns, load_published_gadget, PatternError, PatternFiles, PublishedPattern,
};
use rev_gol_proof::relations::{charging_input_assignments, relation_assignments, verify_published_spec, PublishedError};
use rev_gol_proof::settings::SolverBackend;

/// The text of a pattern of twelve by twelve cells, with a wire of the given phase at each
/// edge that has one: a block of four wire cells, on a strip that reaches the edge.
fn pattern_text(align: (Option<i8>, Option<i8>, Option<i8>, Option<i8>)) -> String {
    let mut rows = vec![vec![0u8; 12]; 12];
    let depth = |phase: i8| -> usize {
        match phase {
            1 => 0,
            -1 => 1,
            _ => 2,
        }
    };
    let height = |phase: i8| -> usize {
        match phase {
            -1 => 10,
            1 => 9,
            _ => 8,
        }
    };
    if let Some(phase) = align.2 {
        let x = depth(phase);
        for y in 5..7 {
            for k in 0..x {
                rows[y][k] = 2;
            }
            rows[y][x] = 1;
            rows[y][x + 1] = 1;
        }
    }
    if let Some(phase) = align.0 {
        let x = height(phase);
        for y in 5..7 {
            for k in x..12 {
                rows[y][k] = 2;
            }
            rows[y][x] = 1;
            rows[y][x + 1] = 1;
        }
    }
    if let Some(phase) = align.1 {
        let y = depth(phase);
        for x in 5..7 {
            for k in 0..y {
                rows[k][x] = 2;
            }
            rows[y][x] = 1;
            rows[y + 1][x] = 1;
        }
    }
    if let Some(phase) = align.3 {
        let y = height(phase);
        for x in 5..7 {
            for k in y..12 {
                rows[k][x] = 2;
            }
            rows[y][x] = 1;
            rows[y + 1][x] = 1;
        }
    }
    let mut text = String::new();
    for row in rows {
        for value in row {
            text.push_str(&value.to_string());
        }
        text.push('\n');
    }
    text
}

/// A stand-in for every pattern of the library: it has the wires that the library says, at
/// the phases that the library says.
fn library_files() -> PatternFiles {
    let mut files = PatternFiles::new();
    for spec in published_part1_specs() {
        let align = match spec.align {
            Some(align) => align,
            None => {
                let phase = |wire: char| {
                    if spec.relation_wires.contains(wire) {
                        Some(0)
                    } else {
                        None
                    }
                };
                (phase('E'), phase('N'), phase('W'), phase('S'))
            }
        };
        assert!(files.add_file(spec.path, pattern_text(align)));
    }
    files
}

/// The pattern files that ship with the crate: none.
fn shipped_files() -> PatternFiles {
    PatternFiles::new()
}

fn large_pattern_tester() -> GadgetVerifier {
    GadgetVerifier::new(GadgetVerifierConfig {
        backend: SolverBackend::Parkissat,
        num_threads: None,
        enable_preprocessing: true,
        verbosity: 0,
        timeout: None,
    })
}

#[test]
fn test_rev_gol_catalog_marks_core_gadgets_as_implemented() {
    let gadgets = rev_gol_to_sat_gadgets();
    assert!(gadgets.iter().any(|g| g.id == "local_transition_truth_table"));
    assert!(gadgets.iter().any(|g| g.status == GadgetStatus::UnsafeHeuristic));
}

#[test]
fn test_sat_to_rev_gol_catalog_lists_required_basis() {
    let gadgets = sat_to_rev_gol_required_gadgets();
    assert!(gadgets.iter().any(|g| g.id == "bit_wire"));
    assert!(gadgets.iter().all(|g| g.status == GadgetStatus::RequiredButMissing));
}

#[test]
fn test_parse_published_csv_pattern() {
    let pattern = PublishedPattern::from_csv_str(
        "\
0 1 0\n\
1 2 3\n\
0 0 0\n",
    )
    .unwrap();

    assert_eq!(pattern.width, 3);
    assert_eq!(pattern.height, 3);
    assert_eq!(pattern.cells[1][1], 2);
}

#[test]
fn test_relation_assignments_cover_allowed_and_forbidden() {
    let spec = PublishedSpec {
        path: "",
        name: "test",
        size: None,
        align: None,
        charging: vec![],
        relation_wires: "EW",
        relation_items: vec![vec![0, 1]],
    };

    let (allowed, forbidden) = relation_assignments(&spec);
    assert_eq!(allowed.len(), 1);
    assert_eq!(forbidden.len(), 3);
}

#[test]
fn test_compose_published_patterns_merges_bounding_box_and_cells() {
    let left = PublishedPattern::from_csv_str(
        "\
10\n\
01\n",
    )
    .unwrap();
    let right = PublishedPattern::from_csv_str(
        "\
01\n\
10\n",
    )
    .unwrap();

    let composed = compose_published_patterns(&[(&left, 0, 0), (&right, 1, 1)]).unwrap();

    assert_eq!(composed.width, 3);
    assert_eq!(composed.height, 3);
    assert_eq!(composed.cells[0], vec![1, 0, 0]);
    assert_eq!(composed.cells[1], vec![0, 1, 1]);
    assert_eq!(composed.cells[2], vec![0, 1, 0]);
}

#[test]
fn test_verify_imported_enforcer_when_sources_are_present() {
    let files = shipped_files();
    if files.texts.is_empty() {
        return;
    }

    let tester = GadgetVerifier::new(GadgetVerifierConfig::default());
    let spec = published_basic_specs().into_iter().find(|spec| spec.name == "enforcer gadget").unwrap();
    let report = verify_published_spec(&tester, &files, &spec).unwrap();

    assert!(report.is_success());
}

#[test]
fn test_all_published_basic_specs_verify_when_sources_are_present() {
    let files = shipped_files();
    if files.texts.is_empty() {
        return;
    }

    let tester = GadgetVerifier::new(GadgetVerifierConfig::default());
    for spec in published_basic_specs() {
        let report = verify_published_spec(&tester, &files, &spec)
            .unwrap_or_else(|err| panic!("{} failed to verify: {}", spec.name, err.to_string()));
        assert!(report.is_success(), "{} did not satisfy its published spec", spec.name);
    }
}

#[test]
fn test_representative_published_tile_verifies_when_sources_are_present() {
    let files = shipped_files();
    if files.texts.is_empty() {
        return;
    }

    let tester = large_pattern_tester();
    let spec = published_part1_specs().into_iter().find(|spec| spec.name == "horizontal wire tile").unwrap();
    let report = verify_published_spec(&tester, &files, &spec)
        .unwrap_or_else(|err| panic!("{} failed to verify: {}", spec.name, err.to_string()));
    assert!(report.is_success(), "{} did not satisfy its published spec", spec.name);
}

#[test]
fn the_library_in_numbers() {
    assert_eq!(published_basic_specs().len(), 8);
    assert_eq!(published_tile_specs().len(), 11);
    assert_eq!(published_connector_specs().len(), 9);
    assert_eq!(published_part1_specs().len(), 28);
    assert!(published_spec_named("crossing tile").is_some());
    assert!(published_spec_named("no such tile").is_none());
    for spec in published_part1_specs() {
        assert_eq!(published_spec_named(spec.name).unwrap().path, spec.path);
    }
}

#[test]
fn every_row_is_allowed_or_forbidden() {
    for spec in published_part1_specs() {
        let (allowed, forbidden) = relation_assignments(&spec);
        assert_eq!(allowed.len() + forbidden.len(), 1usize << spec.relation_wires.len());
    }
}

#[test]
fn charging_rules_fix_their_inputs() {
    let spec = PublishedSpec {
        path: "",
        name: "test",
        size: Some(PublishedSize(3, 3)),
        align: None,
        charging: vec![("W", "E")],
        relation_wires: "EW",
        relation_items: vec![vec![0, 0], vec![1, 1]],
    };

    let cases = charging_input_assignments(&spec);
    assert_eq!(cases.len(), 2);
    for (assignment, outputs) in cases {
        assert!(assignment.states.get("W").is_some());
        assert_eq!(outputs, vec!["E".to_string()]);
    }
}

#[test]
fn broken_patterns_are_reported() {
    assert!(matches!(PublishedPattern::from_csv_str(""), Err(PatternError::Empty)));
    assert!(matches!(PublishedPattern::from_csv_str("01\n0\n"), Err(PatternError::Ragged)));
    assert!(matches!(PublishedPattern::from_csv_str("0x\n"), Err(PatternError::BadDigit { character: 'x' })));
    assert!(matches!(PublishedPattern::from_csv_str("0 x\n"), Err(PatternError::BadRow)));
    assert!(matches!(compose_published_patterns(&[]), Err(PatternError::EmptyComposition)));
    let missing = PublishedPattern::from_csv_file(&PatternFiles::new(), "gadgets/enforcer.cvs").unwrap_err();
    assert!(matches!(missing, PatternError::MissingFile { ref path } if path.as_str() == "gadgets/enforcer.cvs"));
    let message = PublishedPattern::from_csv_str("0x\n").unwrap_err().to_string();
    assert!(message.contains("'x'"));
}

#[test]
fn wires_are_found_at_their_phases() {
    for east in -1..2i8 {
        for west in -1..2i8 {
            let align = (Some(east), None, Some(west), None);
            let pattern = PublishedPattern::from_csv_str(&pattern_text(align)).unwrap();
            assert!(pattern.is_scannable());
            assert_eq!(pattern.phase_alignment(), align);
        }
    }
    let upright = (None, Some(1), None, Some(-1));
    assert_eq!(PublishedPattern::from_csv_str(&pattern_text(upright)).unwrap().phase_alignment(), upright);
}

#[test]
fn cells_above_zero_are_alive() {
    let pattern = PublishedPattern::from_csv_str("0 1 2\n3 0 0\n").unwrap();
    let grid = pattern.to_target_grid().unwrap();

    assert_eq!((grid.width, grid.height), (3, 2));
    assert_eq!(grid.living_count(), 3);
    assert!(!grid.get(0, 0));
    assert!(grid.get(1, 0));
}

#[test]
fn a_pattern_becomes_a_gadget_with_a_port_for_each_wire() {
    let files = library_files();
    let spec = published_spec_named("splitter tile").unwrap();
    let (pattern, gadget) = load_published_gadget(&files, &spec).unwrap();

    assert_eq!(pattern.width, 12);
    assert_eq!(gadget.name, "splitter tile");
    assert_eq!(gadget.ports.len(), 3);
}

#[test]
fn a_missing_file_stops_the_test_of_a_pattern() {
    let tester = large_pattern_tester();
    let spec = published_spec_named("crossing tile").unwrap();

    assert!(matches!(
        verify_published_spec(&tester, &PatternFiles::new(), &spec),
        Err(PublishedError::Pattern { error: PatternError::MissingFile { .. } })
    ));
}

#[test]
fn the_order_of_placed_patterns_does_not_matter() {
    let left = PublishedPattern::from_csv_str("10\n02\n").unwrap();
    let right = PublishedPattern::from_csv_str("01\n30\n").unwrap();
    let one = compose_published_patterns(&[(&left, 0, 0), (&right, 1, 1)]).unwrap();
    let other = compose_published_patterns(&[(&right, 1, 1), (&left, 0, 0)]).unwrap();

    assert_eq!(one.cells, vec![vec![1, 0, 0], vec![0, 2, 1], vec![0, 3, 0]]);
    assert_eq!((one.width, one.height), (other.width, other.height));
    assert_eq!(one.cells, other.cells);
}

#[test]
fn moving_all_placed_patterns_changes_nothing() {
    let left = PublishedPattern::from_csv_str("10\n02\n").unwrap();
    let right = PublishedPattern::from_csv_str("01\n30\n").unwrap();
    let near = compose_published_patterns(&[(&left, 0, 0), (&right, 1, 1)]).unwrap();
    let (x, y) = (isize::MAX - 3, isize::MIN);
    let far = compose_published_patterns(&[(&left, x, y), (&right, x + 1, y + 1)]).unwrap();

    assert_eq!(near.cells, far.cells);
}

#[test]
fn one_placed_pattern_composes_to_itself() {
    let pattern = PublishedPattern::from_csv_str("102\n031\n").unwrap();
    let composed = compose_published_patterns(&[(&pattern, -7, 900_000_000)]).unwrap();

    assert_eq!((composed.width, composed.height), (3, 2));
    assert_eq!(composed.cells, pattern.cells);
}

#[test]
fn blank_lines_and_comments_do_not_matter() {
    let bare = PublishedPattern::from_csv_str("10\n02").unwrap();
    let dressed = PublishedPattern::from_csv_str("% a comment\n\n10  \n   \n%\n02\n\n").unwrap();

    assert_eq!((bare.width, bare.height), (2, 2));
    assert_eq!(bare.cells, dressed.cells);
    assert!(matches!(PublishedPattern::from_csv_str("% only\n\n"), Err(PatternError::Empty)));
}

/// A straight wire of nine cells, two cells thick.
fn short_wire_files() -> PatternFiles {
    let mut files = PatternFiles::new();
    let text = "000000000\n000000000\n111111111\n111111111\n000000000\n000000000\n";
    assert!(files.add_file("short_wire.csv", text.to_string()));
    files
}

/// What may be said of the short wire; `items` are the values at its east and west ends.
fn short_wire(items: Vec<Vec<u8>>) -> PublishedSpec {
    PublishedSpec {
        path: "short_wire.csv",
        name: "short wire",
        size: Some(PublishedSize(9, 6)),
        align: Some((Some(0), None, Some(0), None)),
        charging: vec![("W", "E"), ("E", "W")],
        relation_wires: "EW",
        relation_items: items,
    }
}

#[test]
fn a_wire_carries_its_value_from_end_to_end() {
    let tester = GadgetVerifier::new(GadgetVerifierConfig::default());
    let spec = short_wire(vec![vec![0, 0], vec![1, 1]]);
    let report = verify_published_spec(&tester, &short_wire_files(), &spec).unwrap();

    assert!(report.size_matches);
    assert!(report.alignment_matches);
    assert_eq!(report.relation_report.allowed_results.len(), 2);
    assert!(report.relation_report.allowed_results.iter().all(|check| check.satisfiable));
    assert_eq!(report.relation_report.forbidden_results.len(), 2);
    assert!(report.relation_report.forbidden_results.iter().all(|check| !check.satisfiable));
    assert_eq!(report.charging_reports.len(), 4);
    for check in &report.charging_reports {
        assert!(check.all_outputs_are_named_states);
        assert_eq!(check.observed_outputs.len(), 1);
    }
    assert!(report.is_success());
}

#[test]
fn a_wire_does_not_negate() {
    let tester = GadgetVerifier::new(GadgetVerifierConfig::default());
    let spec = short_wire(vec![vec![0, 1], vec![1, 0]]);
    let report = verify_published_spec(&tester, &short_wire_files(), &spec).unwrap();

    assert!(!report.relation_report.allowed_assignments_hold);
    assert!(!report.relation_report.forbidden_assignments_hold);
    assert!(!report.is_success());
}

#[test]
fn a_wire_of_another_size_or_phase_fails() {
    let tester = GadgetVerifier::new(GadgetVerifierConfig::default());
    let mut spec = short_wire(vec![vec![0, 0], vec![1, 1]]);
    spec.size = Some(PublishedSize(90, 90));
    let report = verify_published_spec(&tester, &short_wire_files(), &spec).unwrap();
    assert!(!report.size_matches && report.alignment_matches && !report.is_success());

    let mut spec = short_wire(vec![vec![0, 0], vec![1, 1]]);
    spec.align = Some((Some(1), None, Some(0), None));
    let report = verify_published_spec(&tester, &short_wire_files(), &spec).unwrap();
    assert!(report.size_matches && !report.alignment_matches && !report.is_success());
}

#[test]
fn a_port_that_the_pattern_does_not_have_is_reported() {
    let tester = GadgetVerifier::new(GadgetVerifierConfig::default());
    let mut spec = short_wire(vec![vec![0, 0], vec![1, 1]]);
    spec.relation_wires = "EN";

    assert!(matches!(
        verify_published_spec(&tester, &short_wire_files(), &spec),
        Err(PublishedError::Gadget { reason: VerifierError::UnknownPort { .. } })
    ));
}

#[test]
fn the_test_of_a_pattern_ends_when_its_time_is_up() {
    let tester = GadgetVerifier::new(GadgetVerifierConfig { timeout: Some(0), ..GadgetVerifierConfig::default() });
    let spec = short_wire(vec![vec![0, 0], vec![1, 1]]);

    assert!(matches!(
        verify_published_spec(&tester, &short_wire_files(), &spec),
        Err(PublishedError::Gadget { reason: VerifierError::TimedOut })
    ));
}

#[test]
fn narrow_patterns_are_looked_at_where_nothing_lies_beyond_their_edge() {
    let narrow = PublishedPattern::from_csv_str("110\n110\n000\n000\n").unwrap();
    assert!(narrow.is_scannable());
    let wires = narrow.find_wires();
    assert_eq!(wires.west.map(|end| (end.x, end.y)), Some((0, 0)));
    assert_eq!(wires.north.map(|end| (end.x, end.y)), Some((0, 0)));
    assert!(wires.east.is_none() && wires.south.is_none());

    assert!(!PublishedPattern::from_csv_str("111\n111\n000\n000\n").unwrap().is_scannable());
    assert!(!PublishedPattern::from_csv_str("11\n11\n").unwrap().is_scannable());
    assert!(PublishedPattern::from_csv_str("10\n00\n").unwrap().is_scannable());
}
