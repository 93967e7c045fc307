//! Whole-query behaviour: heuristic values, full searches, determinism,
//! degenerate geometry, and explicit rejection of bad inputs.

use a_star_rs::compute_path;
use a_star_rs::get_positions;
use a_star_rs::nodes::Nodes;
use a_star_rs::utils::get_index_from_positions;
use a_star_rs::PathError;

#[test]
fn heuristics_are_truncated_euclidean_distances() {
    let width: u8 = 10;
    let height: u8 = 10;
    let arrival: usize = 34;
    let mut nodes = Nodes::new(width, height, 0, arrival);
    nodes.generate_heuristics();
    let (arrival_x, arrival_y) = get_positions(width, arrival as u8);
    for index in 0..100usize {
        let (x, y) = get_positions(width, index as u8);
        let dx = arrival_x as f64 - x as f64;
        let dy = arrival_y as f64 - y as f64;
        let expected = (dx * dx + dy * dy).sqrt() as u8;
        assert_eq!(
            nodes.get_node_by_index(index).get_heuristic(),
            expected,
            "unexpected heuristic",
        );
    }
}

#[test]
fn complete_search_returns_an_adjacent_walkable_path() {
    let obstacles: Vec<usize> = vec![15, 25, 27, 33];
    let departure: usize = 13;
    let arrival: usize = 34;
    let width: u8 = 6;
    let path = compute_path(width, 6, departure, arrival, &obstacles)
        .expect("a path should be found");

    assert_eq!(path, [14, 21, 28, 34], "unexpected path");

    // The last element is the arrival; the first is on the departure's side.
    assert_eq!(*path.last().unwrap(), arrival, "unexpected last element");
    let (first_x, first_y) = get_positions(width, path[0] as u8);
    let (dep_x, dep_y) = get_positions(width, departure as u8);
    assert!((first_x as i16 - dep_x as i16).abs() <= 1);
    assert!((first_y as i16 - dep_y as i16).abs() <= 1);

    // Every element is walkable, and consecutive elements are grid-adjacent.
    for (step, index) in path.iter().enumerate() {
        assert!(!obstacles.contains(index), "path crosses an obstacle");
        if step + 1 < path.len() {
            let (x, y) = get_positions(width, path[step] as u8);
            let (next_x, next_y) = get_positions(width, path[step + 1] as u8);
            assert!((x as i16 - next_x as i16).abs() <= 1, "not adjacent");
            assert!((y as i16 - next_y as i16).abs() <= 1, "not adjacent");
        }
    }

    // The found terminal sits at heuristic exactly 1 from the arrival.
    let terminal = path[path.len() - 2];
    let (terminal_x, terminal_y) = get_positions(width, terminal as u8);
    let (arrival_x, arrival_y) = get_positions(width, arrival as u8);
    let dx = (arrival_x as f64) - (terminal_x as f64);
    let dy = (arrival_y as f64) - (terminal_y as f64);
    assert_eq!((dx * dx + dy * dy).sqrt() as u8, 1, "unexpected terminal");
}

#[test]
fn identical_inputs_give_identical_paths() {
    let obstacles: Vec<usize> = vec![15, 25, 27, 33];
    let first = compute_path(6, 6, 13, 34, &obstacles);
    let second = compute_path(6, 6, 13, 34, &obstacles);
    assert_eq!(first, second, "two identical runs disagree");

    let open: Vec<usize> = Vec::new();
    let third = compute_path(10, 10, 0, 99, &open);
    let fourth = compute_path(10, 10, 0, 99, &open);
    assert_eq!(third, fourth, "two identical runs disagree");
}

#[test]
fn departure_adjacent_to_arrival_terminates_at_once() {
    let open: Vec<usize> = Vec::new();
    let path = compute_path(10, 10, 0, 1, &open).expect("a path should be found");
    assert_eq!(path, [10, 1], "unexpected path");
}

#[test]
fn one_cell_grid_returns_a_trivial_path() {
    let open: Vec<usize> = Vec::new();
    assert_eq!(compute_path(1, 1, 0, 0, &open), Ok(vec![]));
}

#[test]
fn equal_departure_and_arrival_return_a_trivial_path() {
    let open: Vec<usize> = Vec::new();
    assert_eq!(compute_path(10, 10, 42, 42, &open), Ok(vec![]));
}

#[test]
fn dimensions_out_of_bounds_are_rejected() {
    let open: Vec<usize> = Vec::new();
    assert_eq!(
        compute_path(0, 5, 0, 1, &open),
        Err(PathError::InvalidDimensions),
    );
    assert_eq!(
        compute_path(5, 11, 0, 1, &open),
        Err(PathError::InvalidDimensions),
    );
}

#[test]
fn indices_out_of_bounds_are_rejected() {
    let open: Vec<usize> = Vec::new();
    assert_eq!(
        compute_path(10, 10, 100, 1, &open),
        Err(PathError::InvalidIndex),
    );
    assert_eq!(
        compute_path(10, 10, 0, 100, &open),
        Err(PathError::InvalidIndex),
    );
    let bad_obstacles: Vec<usize> = vec![2, 36];
    assert_eq!(
        compute_path(6, 6, 13, 34, &bad_obstacles),
        Err(PathError::InvalidIndex),
    );
}

#[test]
fn a_walled_in_arrival_is_reported_unreachable() {
    let obstacles: Vec<usize> = vec![4, 5, 7];
    assert_eq!(
        compute_path(3, 3, 0, 8, &obstacles),
        Err(PathError::Unreachable),
    );
}

#[test]
fn index_and_positions_convert_both_ways() {
    assert_eq!(get_positions(10, 34), (4, 3));
    assert_eq!(get_positions(6, 34), (4, 5));
    assert_eq!(get_index_from_positions(4, 5, 6), 34);
    assert_eq!(get_index_from_positions(0, 0, 10), 0);
    assert_eq!(get_index_from_positions(9, 9, 10), 99);
}
