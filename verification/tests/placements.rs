use rev_gol_proof::corridors::Link;
use rev_gol_proof::placement::PlacementProblem;
use rev_gol_proof::search::{solve_origins, PlacementError};

fn link(from: usize, to: usize, deltas: &[(i128, i128)]) -> Link {
    Link { from, to, deltas: deltas.to_vec() }
}

/// Wires in a row, each joined to the next.
fn row(n: usize) -> PlacementProblem {
    PlacementProblem {
        nodes: n + 1,
        links: (0..n).map(|i| link(i, i + 1, &[(20, 0), (17, 0), (23, 0)])).collect(),
        across: n,
        level: vec![true; n + 1],
        upright: vec![false; n + 1],
        places: (0..n + 1).map(|i| (i as i32, 0)).collect(),
        names: vec!["horizontal wire tile"; n + 1],
        connectors: vec!["connector 0 to 0"; n],
        limit: 30,
    }
}

/// Four turns in a square.
fn square(upper: &[(i128, i128)], lower: &[(i128, i128)], left: &[(i128, i128)], right: &[(i128, i128)]) -> PlacementProblem {
    PlacementProblem {
        nodes: 4,
        links: vec![link(0, 2, upper), link(1, 3, lower), link(0, 1, left), link(2, 3, right)],
        across: 2,
        level: vec![false; 4],
        upright: vec![false; 4],
        places: vec![(0, 0), (0, 1), (1, 0), (1, 1)],
        names: vec!["SE turn tile", "NE turn tile", "SW turn tile", "NW turn tile"],
        connectors: vec!["connector 0 to 0"; 2],
        limit: 30,
    }
}

fn fits(problem: &PlacementProblem, origins: &[(i128, i128)]) -> bool {
    problem.links.iter().all(|link| {
        let (a, b) = (origins[link.from], origins[link.to]);
        link.deltas.contains(&(b.0 - a.0, b.1 - a.1))
    })
}

#[test]
fn a_row_takes_the_preferred_places() {
    let problem = row(12);
    let origins = solve_origins(&problem, false, None).unwrap();

    assert_eq!(origins.len(), 13);
    for i in 0..12 {
        assert_eq!((origins[i + 1].0 - origins[i].0, origins[i + 1].1 - origins[i].1), (20, 0));
    }
}

#[test]
fn a_square_that_closes_with_preferred_places() {
    let problem = square(&[(10, 0)], &[(10, 0)], &[(0, 10)], &[(0, 10)]);
    assert!(fits(&problem, &solve_origins(&problem, false, None).unwrap()));
}

#[test]
fn a_square_that_closes_with_other_places() {
    let problem = square(&[(10, 0), (13, 0)], &[(16, 0), (13, 0)], &[(0, 10)], &[(0, 10), (3, 10)]);
    assert!(fits(&problem, &solve_origins(&problem, false, None).unwrap()));
}

#[test]
fn a_square_that_does_not_close() {
    let problem = square(&[(10, 0)], &[(11, 0)], &[(0, 10)], &[(0, 10)]);
    assert!(matches!(solve_origins(&problem, false, None), Err(PlacementError::FallbackDisabled)));
    let error = solve_origins(&problem, true, None).unwrap_err();
    assert!(matches!(error, PlacementError::NotFound));
    assert!(!error.to_string().is_empty());
}

#[test]
fn the_search_by_pieces_stops_at_its_limit() {
    let problem = square(&[(10, 0), (12, 0)], &[(11, 0), (13, 0)], &[(0, 10), (0, 12)], &[(0, 10), (0, 12)]);
    assert!(matches!(solve_origins(&problem, true, Some(0)), Err(PlacementError::LimitExceeded { limit: 0 })));
}

#[test]
fn the_limit_counts_the_states_that_were_looked_at() {
    let problem = square(&[(10, 0)], &[(11, 0)], &[(0, 10)], &[(0, 10)]);
    assert!(matches!(solve_origins(&problem, true, Some(0)), Err(PlacementError::LimitExceeded { limit: 0 })));
    assert!(matches!(solve_origins(&problem, true, Some(1)), Err(PlacementError::NotFound)));
}

#[test]
fn repairs_are_found_without_the_search_by_pieces() {
    let problem = square(&[(10, 0), (13, 0)], &[(13, 0), (16, 0)], &[(0, 10)], &[(0, 10)]);
    let origins = solve_origins(&problem, false, Some(0)).unwrap();

    assert!(fits(&problem, &origins));
    assert_eq!(origins[2].0 - origins[0].0, 13);
    assert_eq!(origins[3].0 - origins[1].0, 13);
}

#[test]
fn places_may_lie_at_the_ends_of_the_range() {
    let far = 0x7fff_ffff;
    let mut problem = row(12);
    problem.limit = 0x8000_0000;
    for link in problem.links.iter_mut() {
        link.deltas = vec![(far, 0)];
    }
    let origins = solve_origins(&problem, false, None).unwrap();

    assert_eq!(origins[12].0 - origins[0].0, 12 * far);
}
