use astar_grid::astar2d_cached::{
    create_cardinal_neighbor_idx_cache,
    create_neighbor_idx_cache,
    find_path,
};

fn xy_to_idx(x: u32, y: u32, width: u32) -> u32 {
    (y * width) + x
}

#[test]
fn lib_xy_to_idx_works() {
    assert_eq!(xy_to_idx(1, 1, 7), 8);
    assert_eq!(xy_to_idx(1, 2, 7), 15);
}

#[test]
fn it_runs_in_a_straight_line() {
    let grid = vec![
        1, 1, 1, 1, 1,
        1, 1, 1, 1, 1,
        1, 1, 1, 1, 1,
        1, 1, 1, 1, 1,
        1, 1, 1, 1, 1,
    ];
    let neighbors = create_neighbor_idx_cache(&grid, 5);
    let path = find_path(0, 24, &grid, 5, &neighbors);
    assert_eq!(path, vec![6, 12, 18, 24]);
}

#[test]
fn lib_it_avoids_walls() {
    let grid = vec![
        1, 1, 1, 1, 1, 1, 1,
        1, 1, 0, 1, 1, 0, 1,
        1, 1, 0, 0, 1, 0, 1,
        1, 1, 0, 1, 1, 0, 1,
        1, 1, 0, 0, 0, 0, 1,
        1, 1, 1, 1, 1, 1, 1,
        1, 1, 1, 1, 1, 1, 1,
    ];
    let neighbors = create_neighbor_idx_cache(&grid, 7);
    let path = find_path(0, 48, &grid, 7, &neighbors);
    assert_eq!(path, vec![8, 15, 22, 29, 37, 45, 46, 47, 48]);
}

#[test]
fn it_returns_no_path_if_path_impossible() {
    let grid = vec![
        1, 1, 0, 1, 1, 1, 1,
        1, 1, 0, 1, 1, 0, 1,
        0, 0, 0, 0, 1, 0, 1,
        1, 1, 0, 1, 1, 0, 1,
        1, 1, 0, 0, 0, 0, 1,
        1, 1, 1, 1, 1, 1, 1,
        1, 1, 1, 1, 1, 1, 1,
    ];
    let neighbors = create_neighbor_idx_cache(&grid, 7);
    let path = find_path(0, 48, &grid, 7, &neighbors);
    assert_eq!(path, vec![]);
}

#[test]
fn lib_it_cuts_corners() {
    let width: u32 = 4;
    let grid = vec![
        1, 0, 1, 1,
        1, 0, 1, 1,
        1, 0, 1, 1,
        1, 1, 1, 1,
    ];
    let neighbors = create_neighbor_idx_cache(&grid, 4);
    let path = find_path(0, 15, &grid, width, &neighbors);
    assert_eq!(
        path,
        vec![
            xy_to_idx(0, 1, width),
            xy_to_idx(0, 2, width),
            xy_to_idx(1, 3, width),
            xy_to_idx(2, 3, width),
            xy_to_idx(3, 3, width),
        ]
    );
}

#[test]
fn lib_it_doesnt_cut_corners_using_cardinal_directions() {
    let width: u32 = 4;
    let grid = vec![
        1, 0, 1, 1,
        1, 0, 1, 1,
        1, 0, 1, 1,
        1, 1, 1, 1,
    ];
    let neighbors = create_cardinal_neighbor_idx_cache(&grid, width);
    let path = find_path(0, 15, &grid, width, &neighbors);
    assert_eq!(
        path,
        vec![
            xy_to_idx(0, 1, width),
            xy_to_idx(0, 2, width),
            xy_to_idx(0, 3, width),
            xy_to_idx(1, 3, width),
            xy_to_idx(2, 3, width),
            xy_to_idx(3, 3, width),
        ]
    );
}

#[test]
fn cached_queries_match_on_demand_queries() {
    // the precomputed table and on-demand enumeration yield identical
    // paths, in both direction modes
    let grid = vec![
        1, 1, 1, 1, 1, 1, 1,
        1, 1, 0, 1, 1, 0, 1,
        1, 1, 0, 0, 1, 0, 1,
        1, 1, 0, 1, 1, 0, 1,
        1, 1, 0, 0, 0, 0, 1,
        1, 1, 1, 1, 1, 1, 1,
        1, 1, 1, 1, 1, 1, 1,
    ];
    let omni = create_neighbor_idx_cache(&grid, 7);
    let cardinal = create_cardinal_neighbor_idx_cache(&grid, 7);
    for goal in [48u32, 6, 42, 24] {
        assert_eq!(
            find_path(0, goal, &grid, 7, &omni),
            astar_grid::astar2d::find_path(0, goal, &grid, 7, false)
        );
        assert_eq!(
            find_path(0, goal, &grid, 7, &cardinal),
            astar_grid::astar2d::find_path(0, goal, &grid, 7, true)
        );
    }
}

#[test]
fn impassable_cells_get_empty_cache_rows() {
    let grid = vec![
        1, 0,
        1, 1,
    ];
    let neighbors = create_neighbor_idx_cache(&grid, 2);
    assert_eq!(neighbors.len(), 4);
    assert_eq!(neighbors[1], Vec::<u32>::new());
    // the open corners see their passable orthogonal and diagonal neighbors
    assert_eq!(neighbors[0], vec![2, 3]);
    assert_eq!(neighbors[3], vec![0, 2]);
}

use astar_grid::astar2d::PathError;
use astar_grid::astar2d_cached::try_find_path;

#[test]
fn cached_checked_query_reports_each_error() {
    let grid = vec![1u32; 9];
    let cache = create_neighbor_idx_cache(&grid, 3);
    assert_eq!(try_find_path(0, 8, &grid, 0, &cache), Err(PathError::InvalidDimensions));
    assert_eq!(try_find_path(0, 8, &grid, 2, &cache), Err(PathError::InvalidDimensions));
    assert_eq!(try_find_path(0, 9, &grid, 3, &cache), Err(PathError::InvalidIndex));
    assert_eq!(try_find_path(0, 8, &grid, 3, &cache), Ok(vec![4, 8]));
    let walled = vec![
        1, 0, 1,
        1, 0, 1,
        1, 0, 1,
    ];
    let walled_cache = create_neighbor_idx_cache(&walled, 3);
    assert_eq!(try_find_path(0, 2, &walled, 3, &walled_cache), Err(PathError::NoPathFound));
    assert_eq!(try_find_path(1, 2, &walled, 3, &walled_cache), Err(PathError::ImpassableEndpoint));
}
