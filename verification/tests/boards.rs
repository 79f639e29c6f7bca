use rev_gol_proof::audit::audit_published_board_motifs;
use rev_gol_proof::board::{build_published_board, BoardBuildOptions, PublishedBoard};
use rev_gol_proof::board_error::BoardError;
use rev_gol_proof::circuit::{Clause, CnfFormula, Literal};
use rev_gol_proof::compiler::ConstructionCompiler;
use rev_gol_proof::grid::{grid_to_string, parse_grid_from_string, Grid, GridError};
use rev_gol_proof::library::published_part1_specs;
use rev_gol_proof::published::{PatternError, PatternFiles};
use rev_gol_proof::settings::BoundaryCondition;

/// (x1 or not x2) and (x2 or x3).
fn small_formula() -> CnfFormula {
    CnfFormula::new(vec![
        Clause::new(vec![Literal::positive("x1"), Literal::negative("x2")]),
        Clause::new(vec![Literal::positive("x2"), Literal::positive("x3")]),
    ])
}

/// The text of a pattern of twelve by twelve cells, with a wire of the given phase at each
/// edge that has one: a block of four wire cells, on a strip that reaches the edge.
fn pattern_text(align: (Option<i8>, Option<i8>, Option<i8>, Option<i8>)) -> String {
    let mut rows = vec![vec![0u8; 12]; 12];
    let depth = |phase: i8| -> usize {
        match phase {
            1 => 0,
            -1 => 1,
            _ => 2,
        }
    };
    let height = |phase: i8| -> usize {
        match phase {
            -1 => 10,
            1 => 9,
            _ => 8,
        }
    };
    if let Some(phase) = align.2 {
        let x = depth(phase);
        for y in 5..7 {
            for k in 0..x {
                rows[y][k] = 2;
            }
            rows[y][x] = 1;
            rows[y][x + 1] = 1;
        }
    }
    if let Some(phase) = align.0 {
        let x = height(phase);
        for y in 5..7 {
            for k in x..12 {
                rows[y][k] = 2;
            }
            rows[y][x] = 1;
            rows[y][x + 1] = 1;
        }
    }
    if let Some(phase) = align.1 {
        let y = depth(phase);
        for x in 5..7 {
            for k in 0..y {
                rows[k][x] = 2;
            }
            rows[y][x] = 1;
            rows[y + 1][x] = 1;
        }
    }
    if let Some(phase) = align.3 {
        let y = height(phase);
        for x in 5..7 {
            for k in y..12 {
                rows[k][x] = 2;
            }
            rows[y][x] = 1;
            rows[y + 1][x] = 1;
        }
    }
    let mut text = String::new();
    for row in rows {
        for value in row {
            text.push_str(&value.to_string());
        }
        text.push('\n');
    }
    text
}

/// A stand-in for every pattern of the library: it has the wires that the library says, at
/// the phases that the library says.
fn library_files() -> PatternFiles {
    let mut files = PatternFiles::new();
    for spec in published_part1_specs() {
        let align = match spec.align {
            Some(align) => align,
            None => {
                let phase = |wire: char| {
                    if spec.relation_wires.contains(wire) {
                        Some(0)
                    } else {
                        None
                    }
                };
                (phase('E'), phase('N'), phase('W'), phase('S'))
            }
        };
        assert!(files.add_file(spec.path, pattern_text(align)));
    }
    files
}

#[test]
fn test_published_board_grid_string_round_trips_through_rev_gol_io() {
    let target = Grid::from_cells(
        vec![
            vec![false, true, false],
            vec![true, false, true],
            vec![false, true, false],
        ],
        BoundaryCondition::Dead,
    )
    .unwrap();
    let board = PublishedBoard { pieces: Vec::new(), target };

    let text = board.to_grid_string();
    let reparsed = parse_grid_from_string(&text, BoundaryCondition::Dead).unwrap();

    assert_eq!(reparsed.width, board.target.width);
    assert_eq!(reparsed.height, board.target.height);
    assert_eq!(reparsed.living_count(), board.target.living_count());
    assert_eq!(grid_to_string(&reparsed), text);
}

#[test]
fn test_audit_published_board_motifs_for_small_formula() {
    let files = library_files();
    let construction = ConstructionCompiler::compile_cnf(&small_formula()).unwrap();
    let audit = audit_published_board_motifs(&files, &construction).unwrap();

    assert!(!audit.horizontal.is_empty());
    assert!(!audit.vertical.is_empty());
}

#[test]
fn the_audit_tells_resolved_motifs_from_unresolved_ones() {
    let files = library_files();
    let construction = ConstructionCompiler::compile_cnf(&small_formula()).unwrap();
    let audit = audit_published_board_motifs(&files, &construction).unwrap();

    let resolved = audit.horizontal.iter().filter(|family| family.calibrated).count();
    assert_eq!(resolved + audit.unresolved_horizontal().len(), audit.horizontal.len());
    let resolved = audit.vertical.iter().filter(|family| family.calibrated).count();
    assert_eq!(resolved + audit.unresolved_vertical().len(), audit.vertical.len());
    assert!(!audit.render_summary().is_empty());
}

#[test]
fn broken_grids_are_reported() {
    assert!(matches!(parse_grid_from_string("", BoundaryCondition::Dead), Err(GridError::Empty)));
    assert!(matches!(parse_grid_from_string("01\n0\n", BoundaryCondition::Dead), Err(GridError::Ragged)));
    assert!(matches!(parse_grid_from_string("0x\n", BoundaryCondition::Dead), Err(GridError::UnknownCell)));
    assert!(matches!(Grid::from_cells(vec![], BoundaryCondition::Wrap), Err(GridError::Empty)));
}

#[test]
fn a_new_grid_is_dead() {
    let mut grid = Grid::new(4, 2, BoundaryCondition::Mirror);
    assert_eq!(grid.living_count(), 0);
    grid.set(1, 3, true);
    assert!(grid.get(1, 3));
    assert_eq!(grid_to_string(&grid), "0000\n0001\n");
}

#[test]
fn a_board_needs_its_patterns() {
    let construction = ConstructionCompiler::compile_cnf(&small_formula()).unwrap();
    let error = build_published_board(&PatternFiles::new(), &construction).unwrap_err();

    assert!(matches!(error, BoardError::Pattern { error: PatternError::MissingFile { .. } }));
    assert!(!error.to_string().is_empty());
}

#[test]
fn by_default_pieces_are_placed_by_corridors_alone() {
    let options = BoardBuildOptions::default();

    assert!(!options.allow_exact_placement_search);
    assert_eq!(options.exact_search_state_limit, Some(100_000));
    assert_eq!(options.exact_search_progress_interval, 10_000);
}
