use rev_gol_proof::certificate::{certify_compiled_construction, routing_basis_coverage, CertificateError};
use rev_gol_proof::circuit::{Clause, CnfFormula, Literal};
use rev_gol_proof::compiler::{CompiledConstruction, ConstructionCompiler, InstanceId};
use rev_gol_proof::contracts::{
    default_contract_verifier, discharge_construction_basis, discharge_logical_contract_library,
    discharge_logical_contract_library_filtered, discharge_routing_contract_library, logical_gadget_contracts,
    routing_gadget_contracts, validate_logical_contract_library, validate_routing_contract_library,
};
use rev_gol_proof::inputs::{certify_input_boundary_encoding, InputEncodingMode};
use rev_gol_proof::interfaces::{
    enumerate_router_interface_basis, horizontal_family_label, vertical_family_label, BasisError,
    InterfaceBasisCertificate, InterfaceBasisEntry, InterfaceOrientation, RouterInterfaceBasis,
};
use rev_gol_proof::library::published_part1_specs;
use rev_gol_proof::padding::certify_dead_boundary_padding;
use rev_gol_proof::published::PatternFiles;
use rev_gol_proof::routing::{
    construct_routing_witness, is_routable, HorizontalInterfaceFamily, RouteDir, RouteDirs, RoutingError,
    VerticalInterfaceFamily,
};

/// (x1 or not x2) and (x2 or x3).
fn small_formula() -> CnfFormula {
    CnfFormula::new(vec![
        Clause::new(vec![Literal::positive("x1"), Literal::negative("x2")]),
        Clause::new(vec![Literal::positive("x2"), Literal::positive("x3")]),
    ])
}

/// The text of a pattern of twelve by twelve cells, with a wire of the given phase at each
/// edge that has one: a block of four wire cells, on a strip that reaches the edge.
fn pattern_text(align: (Option<i8>, Option<i8>, Option<i8>, Option<i8>)) -> String {
    let mut rows = vec![vec![0u8; 12]; 12];
    let depth = |phase: i8| -> usize {
        match phase {
            1 => 0,
            -1 => 1,
            _ => 2,
        }
    };
    let height = |phase: i8| -> usize {
        match phase {
            -1 => 10,
            1 => 9,
            _ => 8,
        }
    };
    if let Some(phase) = align.2 {
        let x = depth(phase);
        for y in 5..7 {
            for k in 0..x {
                rows[y][k] = 2;
            }
            rows[y][x] = 1;
            rows[y][x + 1] = 1;
        }
    }
    if let Some(phase) = align.0 {
        let x = height(phase);
        for y in 5..7 {
            for k in x..12 {
                rows[y][k] = 2;
            }
            rows[y][x] = 1;
            rows[y][x + 1] = 1;
        }
    }
    if let Some(phase) = align.1 {
        let y = depth(phase);
        for x in 5..7 {
            for k in 0..y {
                rows[k][x] = 2;
            }
            rows[y][x] = 1;
            rows[y + 1][x] = 1;
        }
    }
    if let Some(phase) = align.3 {
        let y = height(phase);
        for x in 5..7 {
            for k in y..12 {
                rows[k][x] = 2;
            }
            rows[y][x] = 1;
            rows[y + 1][x] = 1;
        }
    }
    let mut text = String::new();
    for row in rows {
        for value in row {
            text.push_str(&value.to_string());
        }
        text.push('\n');
    }
    text
}

/// A stand-in for every pattern of the library: it has the wires that the library says, at
/// the phases that the library says.
fn library_files() -> PatternFiles {
    let mut files = PatternFiles::new();
    for spec in published_part1_specs() {
        let align = match spec.align {
            Some(align) => align,
            None => {
                let phase = |wire: char| {
                    if spec.relation_wires.contains(wire) {
                        Some(0)
                    } else {
                        None
                    }
                };
                (phase('E'), phase('N'), phase('W'), phase('S'))
            }
        };
        assert!(files.add_file(spec.path, pattern_text(align)));
    }
    files
}

fn small_construction() -> CompiledConstruction {
    ConstructionCompiler::compile_cnf(&small_formula()).unwrap()
}

fn across(families: &[HorizontalInterfaceFamily]) -> Vec<InterfaceBasisEntry> {
    families
        .iter()
        .map(|family| InterfaceBasisEntry {
            orientation: InterfaceOrientation::Horizontal,
            label: horizontal_family_label(family),
            witness_count: family.count,
            external_ports: Vec::new(),
            expected_allowed_rows: 0,
            candidate_count: 1,
        })
        .collect()
}

fn down(families: &[VerticalInterfaceFamily]) -> Vec<InterfaceBasisEntry> {
    families
        .iter()
        .map(|family| InterfaceBasisEntry {
            orientation: InterfaceOrientation::Vertical,
            label: vertical_family_label(family),
            witness_count: family.count,
            external_ports: Vec::new(),
            expected_allowed_rows: 0,
            candidate_count: 1,
        })
        .collect()
}

fn full_basis(basis: &RouterInterfaceBasis) -> InterfaceBasisCertificate {
    InterfaceBasisCertificate { horizontal: across(&basis.horizontal), vertical: down(&basis.vertical) }
}

#[test]
fn test_logical_contracts_match_published_relations() {
    let reports = validate_logical_contract_library().unwrap();
    assert!(!reports.is_empty());
    assert!(reports.iter().all(|report| report.relation_matches));
}

#[test]
fn test_routing_contracts_match_published_relations() {
    let reports = validate_routing_contract_library().unwrap();
    assert!(!reports.is_empty());
    assert!(reports.iter().all(|report| report.relation_matches));
}

#[test]
fn test_certify_compiled_construction_for_small_formula() {
    let files = library_files();
    let construction = small_construction();
    let certificate = certify_compiled_construction(&files, &construction).unwrap();

    assert_eq!(certificate.instances.len(), construction.instances.len());
    assert_eq!(certificate.nets.len(), construction.nets.len());
    assert_eq!(certificate.input_anchor_obligations.len(), 3);
    assert_eq!(certificate.internal_route_obligations.len(), 9);
    assert!(certificate.input_boundary_certificate.is_complete());
    assert!(certificate.dead_boundary_padding_certificate.is_complete());
    assert!(certificate.logical_contracts.iter().all(|report| report.relation_matches));
    assert!(certificate.routing_contracts.iter().all(|report| report.relation_matches));
    assert!(certificate.routing_basis_coverage.is_rectilinear_complete());
    assert_eq!(certificate.routing_witness.net_paths.len(), construction.nets.len());
    assert!(!certificate.routing_witness.horizontal_families.is_empty());
    assert!(!certificate.routing_witness.vertical_families.is_empty());
    assert!(!certificate.interface_basis_complete);
    assert!(certificate.render_summary().contains("symbolic_certificate_valid=true"));
}

#[test]
fn test_attach_interface_basis_certificate_for_small_formula() {
    let files = library_files();
    let construction = small_construction();
    let certificate = certify_compiled_construction(&files, &construction).unwrap();
    let router_basis = enumerate_router_interface_basis(&files).unwrap();
    let basis = full_basis(&router_basis);
    let certificate = certificate.with_interface_basis_certificate(&files, &basis).unwrap();
    assert!(certificate.interface_basis_complete);
    assert_eq!(certificate.remaining_obligations.len(), 0);
}

#[test]
fn test_certify_input_boundary_encoding_for_small_formula() {
    let files = library_files();
    let construction = small_construction();
    let witness = construct_routing_witness(&files, &construction).unwrap();
    let certificate = certify_input_boundary_encoding(&construction, &witness).unwrap();

    assert!(certificate.is_complete());
    assert_eq!(certificate.entries.len(), 3);
    assert_eq!(certificate.families.len(), 1);
    assert!(certificate.entries.iter().all(|entry| entry.source_spec_name == "horizontal wire tile"));
    assert!(certificate.entries.iter().all(|entry| entry.mode == InputEncodingMode::Variable));
    assert!(certificate.render_summary().contains("input_boundary_encoding_complete=true"));
}

#[test]
fn test_certify_dead_boundary_padding_for_small_formula() {
    let files = library_files();
    let construction = small_construction();
    let witness = construct_routing_witness(&files, &construction).unwrap();
    let certificate = certify_dead_boundary_padding(&files, &witness).unwrap();

    assert!(certificate.is_complete());
    assert_eq!(certificate.predecessor_radius, 1);
    assert_eq!(certificate.dead_padding, 2);
    assert!(certificate.finite_board_width_upper_bound > certificate.support_width_upper_bound);
    assert!(certificate.render_summary().contains("finite_dead_boundary_complete=true"));
}

#[test]
fn test_construct_routing_witness_for_small_formula() {
    let files = library_files();
    let construction = small_construction();
    let witness = construct_routing_witness(&files, &construction).unwrap();

    assert_eq!(witness.net_paths.len(), construction.nets.len());
    assert!(witness.route_cell_count() > 0);
    assert!(witness.bounds.width() > 0);
    assert!(witness.bounds.height() > 0);
    assert!(!witness.horizontal_families.is_empty());
    assert!(!witness.vertical_families.is_empty());
    assert!(witness.primitive_usage.contains_key("horizontal wire tile"));
    assert!(witness.render_summary().contains("routing_witness_valid=true"));
}

#[test]
fn test_interface_basis_certificate_covers_small_witness() {
    let files = library_files();
    let witness = construct_routing_witness(&files, &small_construction()).unwrap();
    let basis = InterfaceBasisCertificate {
        horizontal: across(&witness.horizontal_families),
        vertical: down(&witness.vertical_families),
    };
    basis.covers_witness(&witness).unwrap();
}

#[test]
fn test_router_interface_basis_covers_small_witness() {
    let files = library_files();
    let witness = construct_routing_witness(&files, &small_construction()).unwrap();
    let basis = enumerate_router_interface_basis(&files).unwrap();
    let certificate = full_basis(&basis);
    certificate.covers_router_basis(&basis).unwrap();
    certificate.covers_witness(&witness).unwrap();
}

#[test]
fn test_router_interface_basis_excludes_unrealisable_crossing_stack() {
    let basis = enumerate_router_interface_basis(&library_files()).unwrap();
    assert!(!basis
        .vertical
        .iter()
        .any(|family| family.top_spec_name == "crossing tile" && family.bottom_spec_name == "crossing tile"));
}

#[test]
fn what_is_not_covered_is_named() {
    let files = library_files();
    let witness = construct_routing_witness(&files, &small_construction()).unwrap();
    let nothing = InterfaceBasisCertificate { horizontal: vec![], vertical: vec![] };

    let error = nothing.covers_witness(&witness).unwrap_err();
    match &error {
        BasisError::Missing { horizontal, vertical, .. } => {
            assert_eq!(horizontal.len(), witness.horizontal_families.len());
            assert_eq!(vertical.len(), witness.vertical_families.len());
        }
        _ => panic!("{}", error.to_string()),
    }
    assert!(error.to_string().contains('"'));

    let certificate = certify_compiled_construction(&files, &small_construction()).unwrap();
    assert!(certificate.with_interface_basis_certificate(&files, &nothing).is_err());
}

#[test]
fn without_a_basis_two_obligations_remain() {
    let certificate = certify_compiled_construction(&library_files(), &small_construction()).unwrap();

    assert_eq!(certificate.remaining_obligations.len(), 2);
}

#[test]
fn every_input_enters_at_a_place_of_its_own() {
    let files = library_files();
    let construction = small_construction();
    let witness = construct_routing_witness(&files, &construction).unwrap();
    let certificate = certify_input_boundary_encoding(&construction, &witness).unwrap();

    assert!(certificate.distinct_source_coords);
    for (i, first) in certificate.entries.iter().enumerate() {
        assert_eq!(first.supported_boundary_values, vec![0, 1]);
        for second in certificate.entries.iter().skip(i + 1) {
            assert_ne!(first.source_coord, second.source_coord);
        }
    }
}

#[test]
fn paths_are_walks() {
    let files = library_files();
    let witness = construct_routing_witness(&files, &small_construction()).unwrap();

    for path in &witness.net_paths {
        for pair in path.cells.windows(2) {
            let (dx, dy) = (pair[1].0 - pair[0].0, pair[1].1 - pair[0].1);
            assert_eq!(dx.abs() + dy.abs(), 1);
        }
    }
}

#[test]
fn directions_of_a_cell() {
    assert_eq!(RouteDir::N.opposite(), RouteDir::S);
    let dirs = RouteDirs::pair(RouteDir::E, RouteDir::S);
    assert!(dirs.contains(RouteDir::E));
    assert!(!dirs.contains(RouteDir::W));
    assert_eq!(dirs.len(), 2);
}

#[test]
fn unreadable_patterns_stop_the_routing() {
    let error = construct_routing_witness(&PatternFiles::new(), &small_construction()).unwrap_err();

    assert!(matches!(error, RoutingError::UnreadablePattern { .. }));
    assert!(!error.to_string().is_empty());
}

#[test]
fn broken_constructions_are_not_certified() {
    let files = library_files();

    let mut twice = small_construction();
    let id = twice.instances[0].id;
    twice.instances[1].id = id;
    assert!(matches!(certify_compiled_construction(&files, &twice), Err(CertificateError::DuplicateIds)));

    let mut headless = small_construction();
    headless.output_sink = InstanceId(1000);
    assert!(matches!(certify_compiled_construction(&files, &headless), Err(CertificateError::MissingSink)));

    let mut undriven = small_construction();
    undriven.nets.remove(0);
    assert!(matches!(certify_compiled_construction(&files, &undriven), Err(CertificateError::MissingDriver { .. })));

    let mut other_sink = small_construction();
    let gate = other_sink
        .instances
        .iter()
        .find(|instance| instance.id != other_sink.output_sink)
        .unwrap()
        .id;
    other_sink.output_sink = gate;
    let error = certify_compiled_construction(&files, &other_sink).unwrap_err();
    assert!(matches!(error, CertificateError::SinkNotEnforcer { id } if id == gate));
}

#[test]
fn compiled_constructions_are_routable() {
    assert!(is_routable(&small_construction()));
}

#[test]
fn the_basis_can_route_every_rectilinear_path() {
    let coverage = routing_basis_coverage();

    assert!(coverage.is_rectilinear_complete());
    assert_eq!(coverage.connector_phase_pairs.len(), 9);
}

#[test]
fn every_contract_names_a_pattern_of_the_library() {
    let specs = published_part1_specs();
    for contract in logical_gadget_contracts().iter().chain(routing_gadget_contracts().iter()) {
        assert!(specs.iter().any(|spec| spec.name == contract.published_spec_name));
    }
}

#[test]
fn a_contract_without_its_pattern_is_not_discharged() {
    let tester = default_contract_verifier(None);
    let reports =
        discharge_logical_contract_library_filtered(&tester, &PatternFiles::new(), Some("enforcer")).unwrap();

    assert!(!reports.is_empty());
    for report in &reports {
        assert!(report.symbolic_relation_matches);
        assert!(!report.is_success());
        assert!(report.error.is_some());
    }
}

#[test]
fn without_patterns_no_contract_is_discharged() {
    let tester = default_contract_verifier(None);
    let files = PatternFiles::new();

    let logical = discharge_logical_contract_library(&tester, &files).unwrap();
    assert_eq!(logical.len(), logical_gadget_contracts().len());
    assert!(logical.iter().all(|report| !report.is_success()));
    let routing = discharge_routing_contract_library(&tester, &files).unwrap();
    assert_eq!(routing.len(), routing_gadget_contracts().len());
    assert!(routing.iter().all(|report| !report.is_success()));

    let both = discharge_construction_basis(&tester, &files, true, false, None).unwrap();
    assert_eq!((both.logical.len(), both.routing.len()), (logical.len(), 0));
    assert!(!both.is_success());
}

#[test]
fn no_path_is_longer_than_the_grid_of_instances_allows() {
    let files = library_files();
    let construction = small_construction();
    let witness = construct_routing_witness(&files, &construction).unwrap();
    let nets = construction.nets.len();
    let (columns, rows) = construction.bounds();
    let rows = rows.max(construction.variable_inputs.len());
    let bound = 1 + 18 * (columns * (240 + 12 * nets) + rows * (180 + 12 * nets) + 2 * (600 + 60 * nets));

    for path in &witness.net_paths {
        assert!(path.cells.len() <= bound);
    }
    assert_eq!(witness.total_path_length(), witness.net_paths.iter().map(|path| path.cells.len() - 1).sum::<usize>());
}

#[test]
fn one_empty_clause_leaves_the_sources_of_nets_apart() {
    let formula = CnfFormula::new(vec![Clause::new(vec![Literal::positive("x")]), Clause::new(Vec::new())]);
    let construction = ConstructionCompiler::compile_cnf(&formula).unwrap();

    for (i, net) in construction.nets.iter().enumerate() {
        assert!(construction.nets.iter().skip(i + 1).all(|other| other.from != net.from));
    }
}

#[test]
fn several_empty_clauses_share_a_source() {
    let formula = CnfFormula::new(vec![Clause::new(Vec::new()), Clause::new(Vec::new())]);
    let construction = ConstructionCompiler::compile_cnf(&formula).unwrap();

    assert!(matches!(
        certify_compiled_construction(&library_files(), &construction),
        Err(CertificateError::Fanout { fanout: 2, .. })
    ));
}
