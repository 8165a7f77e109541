use astar_grid::astar2d::find_path;

fn xy_to_idx(x: u32, y: u32, width: u32) -> u32 {
    (y * width) + x
}

#[test]
fn xy_to_idx_works() {
    assert_eq!(xy_to_idx(1, 1, 7), 8);
    assert_eq!(xy_to_idx(1, 2, 7), 15);
}

#[test]
fn it_runs_in_a_straigh_line() {
    let grid = vec![
        1, 1, 1, 1, 1,
        1, 1, 1, 1, 1,
        1, 1, 1, 1, 1,
        1, 1, 1, 1, 1,
        1, 1, 1, 1, 1,
    ];
    let path = find_path(0, 24, &grid, 5, false);
    assert_eq!(path, vec![6, 12, 18, 24]);
}

#[test]
fn it_avoids_walls() {
    let grid = vec![
        1, 1, 1, 1, 1, 1, 1,
        1, 1, 0, 1, 1, 0, 1,
        1, 1, 0, 0, 1, 0, 1,
        1, 1, 0, 1, 1, 0, 1,
        1, 1, 0, 0, 0, 0, 1,
        1, 1, 1, 1, 1, 1, 1,
        1, 1, 1, 1, 1, 1, 1,
    ];
    let path = find_path(0, 48, &grid, 7, false);
    assert_eq!(path, vec![8, 15, 22, 29, 37, 45, 46, 47, 48]);
}

#[test]
fn it_cuts_corners() {
    let width: u32 = 4;
    let grid = vec![
        1, 0, 1, 1,
        1, 0, 1, 1,
        1, 0, 1, 1,
        1, 1, 1, 1,
    ];
    let path = find_path(0, 15, &grid, width, false);
    assert_eq!(
        path,
        vec![
            xy_to_idx(0, 1, width),
            xy_to_idx(0, 2, width),
            xy_to_idx(1, 3, width),
            xy_to_idx(2, 3, width),
            xy_to_idx(3, 3, width),
        ]
    );
}

#[test]
fn it_doesnt_cut_corners_using_cardinal_directions() {
    let width: u32 = 4;
    let grid = vec![
        1, 0, 1, 1,
        1, 0, 1, 1,
        1, 0, 1, 1,
        1, 1, 1, 1,
    ];
    let path = find_path(0, 15, &grid, width, true);
    assert_eq!(
        path,
        vec![
            xy_to_idx(0, 1, width),
            xy_to_idx(0, 2, width),
            xy_to_idx(0, 3, width),
            xy_to_idx(1, 3, width),
            xy_to_idx(2, 3, width),
            xy_to_idx(3, 3, width),
        ]
    );
}

#[test]
fn cardinal_open_grid_path_length_matches_manhattan_distance() {
    // on a fully open grid the cardinal path is exactly as long as the
    // Manhattan distance between the endpoints
    let grid = vec![1u32; 25];
    for goal in [4u32, 20, 24, 7, 13] {
        let path = find_path(0, goal, &grid, 5, true);
        let manhattan = (goal % 5) + (goal / 5);
        assert_eq!(path.len() as u32, manhattan);
        // ...and the omnidirectional path is never longer than that, nor
        // shorter than the Chebyshev distance
        let omni = find_path(0, goal, &grid, 5, false);
        assert!(omni.len() as u32 <= manhattan);
        assert!(omni.len() as u32 >= std::cmp::max(goal % 5, goal / 5));
    }
}

#[test]
fn repeated_queries_return_the_same_path() {
    let grid = vec![
        1, 1, 1, 1, 1, 1, 1,
        1, 1, 0, 1, 1, 0, 1,
        1, 1, 0, 0, 1, 0, 1,
        1, 1, 0, 1, 1, 0, 1,
        1, 1, 0, 0, 0, 0, 1,
        1, 1, 1, 1, 1, 1, 1,
        1, 1, 1, 1, 1, 1, 1,
    ];
    let first = find_path(0, 48, &grid, 7, false);
    let second = find_path(0, 48, &grid, 7, false);
    assert_eq!(first, second);
}

#[test]
fn unreachable_goal_yields_the_empty_path() {
    let grid = vec![
        1, 1, 0, 1,
        1, 1, 0, 1,
        1, 1, 0, 1,
        1, 1, 0, 1,
    ];
    let path = find_path(0, 3, &grid, 4, false);
    assert_eq!(path, Vec::<u32>::new());
}

#[test]
fn goal_equal_to_start_yields_the_start_cell() {
    let grid = vec![1u32; 9];
    let path = find_path(4, 4, &grid, 3, false);
    assert_eq!(path, vec![4]);
}

#[test]
fn expensive_terrain_is_avoided() {
    // crossing the middle cell costs 9, so the path walks around it
    let grid = vec![
        1, 1, 1,
        1, 9, 1,
        1, 1, 1,
    ];
    let path = find_path(3, 5, &grid, 3, true);
    assert!(!path.contains(&4));
    assert_eq!(path.len(), 4);
    assert_eq!(*path.last().unwrap(), 5);
}

use astar_grid::astar2d::{try_find_path, PathError};

#[test]
fn checked_query_rejects_zero_width() {
    let grid = vec![1u32; 6];
    assert_eq!(try_find_path(0, 5, &grid, 0, false), Err(PathError::InvalidDimensions));
}

#[test]
fn checked_query_rejects_ragged_grids() {
    let grid = vec![1u32; 7];
    assert_eq!(try_find_path(0, 5, &grid, 3, false), Err(PathError::InvalidDimensions));
}

#[test]
fn checked_query_rejects_out_of_range_endpoints() {
    let grid = vec![1u32; 6];
    assert_eq!(try_find_path(0, 6, &grid, 3, false), Err(PathError::InvalidIndex));
    assert_eq!(try_find_path(9, 1, &grid, 3, false), Err(PathError::InvalidIndex));
}

#[test]
fn checked_query_rejects_impassable_endpoints() {
    let grid = vec![0, 1, 1, 1, 1, 0];
    assert_eq!(try_find_path(0, 4, &grid, 3, false), Err(PathError::ImpassableEndpoint));
    assert_eq!(try_find_path(1, 5, &grid, 3, false), Err(PathError::ImpassableEndpoint));
}

#[test]
fn checked_query_reports_missing_paths_and_found_paths() {
    let grid = vec![
        1, 0, 1,
        1, 0, 1,
        1, 0, 1,
    ];
    assert_eq!(try_find_path(0, 2, &grid, 3, false), Err(PathError::NoPathFound));
    let open = vec![1u32; 9];
    assert_eq!(try_find_path(0, 2, &open, 3, true), Ok(vec![1, 2]));
}
