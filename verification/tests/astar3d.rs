use std::collections::HashSet;

use astar_grid::astar3d::{create_neighbor_idx_cache, find_path, get_neighbor_idxs};

fn xy_to_idx(x: u32, y: u32, width: u32) -> u32 {
    (y * width) + x
}

#[test]
fn layered_xy_to_idx_works() {
    assert_eq!(xy_to_idx(1, 1, 7), 8);
    assert_eq!(xy_to_idx(1, 2, 7), 15);
}

#[test]
fn lib_it_runs_in_a_straight_line() {
    let grid = vec![
        1, 1, 1, 1, 1,
        1, 1, 1, 1, 1,
        1, 1, 1, 1, 1,
        1, 1, 1, 1, 1,
        1, 1, 1, 1, 1,
    ];
    let up_stairs_idxs = HashSet::new();
    let down_stairs_idxs = HashSet::new();
    let dimensions = (5, 5);
    let neighbors =
        create_neighbor_idx_cache(&grid, dimensions, &up_stairs_idxs, &down_stairs_idxs);
    let path = find_path(0, 24, &grid, dimensions, &neighbors);
    assert_eq!(path, vec![6, 12, 18, 24]);
}

#[test]
fn layered_it_avoids_walls() {
    let grid = vec![
        1, 1, 1, 1, 1, 1, 1,
        1, 1, 0, 1, 1, 0, 1,
        1, 1, 0, 0, 1, 0, 1,
        1, 1, 0, 1, 1, 0, 1,
        1, 1, 0, 0, 0, 0, 1,
        1, 1, 1, 1, 1, 1, 1,
        1, 1, 1, 1, 1, 1, 1,
    ];
    let up_stairs_idxs = HashSet::new();
    let down_stairs_idxs = HashSet::new();
    let dimensions = (7, 7);
    let neighbors =
        create_neighbor_idx_cache(&grid, dimensions, &up_stairs_idxs, &down_stairs_idxs);
    let path = find_path(0, 48, &grid, dimensions, &neighbors);
    assert_eq!(path, vec![8, 15, 22, 29, 37, 45, 46, 47, 48]);
}

#[test]
fn it_finds_the_path_across_floors() {
    let grid = vec![
        1, 1, 1, 1, 1, 1, 1,
        1, 1, 0, 1, 1, 0, 1,
        1, 1, 0, 0, 1, 0, 1,
        1, 1, 0, 1, 1, 0, 1,
        1, 1, 0, 0, 0, 0, 1,
        1, 1, 1, 1, 1, 1, 1,
        1, 1, 1, 1, 1, 1, 1,

        1, 1, 1, 1, 1, 1, 1,
        1, 1, 0, 1, 1, 0, 1,
        1, 1, 0, 0, 1, 0, 1,
        1, 1, 0, 1, 1, 0, 1,
        1, 1, 0, 0, 0, 0, 1,
        1, 1, 1, 1, 1, 1, 1,
        1, 1, 1, 1, 1, 1, 1,

        1, 1, 1, 1, 1, 1, 1,
        1, 1, 0, 1, 1, 0, 1,
        1, 1, 0, 0, 1, 0, 1,
        1, 1, 0, 1, 1, 0, 1,
        1, 1, 0, 0, 0, 0, 1,
        1, 1, 1, 1, 1, 1, 1,
        1, 1, 1, 1, 1, 1, 1,
    ];
    let up_stairs_idxs = HashSet::from([24, 87]);
    let down_stairs_idxs = HashSet::new();
    let dimensions = (7, 7);
    let neighbors =
        create_neighbor_idx_cache(&grid, dimensions, &up_stairs_idxs, &down_stairs_idxs);
    let path = find_path(0, 146, &grid, dimensions, &neighbors);
    assert_eq!(
        path,
        vec![1, 2, 10, 18, 73, 67, 59, 51, 57, 64, 71, 78, 86, 136, 144, 145, 146]
    );
}

#[test]
fn layered_it_cuts_corners() {
    let width: u32 = 4;
    let grid = vec![
        1, 0, 1, 1,
        1, 0, 1, 1,
        1, 0, 1, 1,
        1, 1, 1, 1,
    ];
    let up_stairs_idxs = HashSet::new();
    let down_stairs_idxs = HashSet::new();
    let dimensions = (4, 4);
    let neighbors =
        create_neighbor_idx_cache(&grid, dimensions, &up_stairs_idxs, &down_stairs_idxs);
    let path = find_path(0, 15, &grid, dimensions, &neighbors);
    assert_eq!(
        path,
        vec![
            xy_to_idx(0, 1, width),
            xy_to_idx(0, 2, width),
            xy_to_idx(1, 3, width),
            xy_to_idx(2, 3, width),
            xy_to_idx(3, 3, width),
        ]
    );
}

#[test]
fn stairs_appear_after_the_horizontal_neighbors() {
    // a 2x2 grid with two floors; the up-link sits on cell 3, so cell 0
    // lists it horizontally and then the cell one floor above it
    let grid = vec![1u32; 8];
    let up_stairs_idxs = HashSet::from([3u32]);
    let down_stairs_idxs = HashSet::new();
    let neighbors = get_neighbor_idxs(0, &grid, (2, 2), &up_stairs_idxs, &down_stairs_idxs);
    assert_eq!(neighbors, vec![1, 2, 3, 7]);
}

#[test]
fn a_missing_stair_keeps_the_floors_apart() {
    // two open floors, no links: no path can change floors
    let grid = vec![1u32; 8];
    let none = HashSet::new();
    let neighbors = create_neighbor_idx_cache(&grid, (2, 2), &none, &none);
    let path = find_path(0, 7, &grid, (2, 2), &neighbors);
    assert_eq!(path, Vec::<u32>::new());
}

#[test]
fn an_impassable_stair_destination_is_not_listed() {
    // two 2x2 floors, the cell above the linked cell is impassable: the
    // stair move is excluded like any other impassable candidate
    let grid = vec![1, 1, 1, 1, 1, 1, 1, 0];
    let ups = HashSet::from([3u32]);
    let downs = HashSet::new();
    let neighbors = get_neighbor_idxs(0, &grid, (2, 2), &ups, &downs);
    assert_eq!(neighbors, vec![1, 2, 3]);
    let cache = create_neighbor_idx_cache(&grid, (2, 2), &ups, &downs);
    assert_eq!(cache[0], vec![1, 2, 3]);
}

#[test]
fn a_blocked_stair_top_stops_the_climb() {
    // the only link leads onto an impassable cell, so the upper floor
    // stays unreachable
    let grid = vec![1, 1, 1, 1, 0, 1, 1, 1];
    let ups = HashSet::from([0u32]);
    let downs = HashSet::new();
    let cache = create_neighbor_idx_cache(&grid, (2, 2), &ups, &downs);
    let path = find_path(3, 7, &grid, (2, 2), &cache);
    assert_eq!(path, Vec::<u32>::new());
}

use astar_grid::astar2d::PathError;

#[test]
fn layered_checked_query_reports_each_error() {
    let grid = vec![1u32; 8];
    let none: HashSet<u32> = HashSet::new();
    let cache = create_neighbor_idx_cache(&grid, (2, 2), &none, &none);
    assert_eq!(
        astar_grid::astar3d::try_find_path(0, 3, &grid, (0, 2), &cache),
        Err(PathError::InvalidDimensions)
    );
    assert_eq!(
        astar_grid::astar3d::try_find_path(0, 3, &grid, (3, 2), &cache),
        Err(PathError::InvalidDimensions)
    );
    assert_eq!(
        astar_grid::astar3d::try_find_path(0, 8, &grid, (2, 2), &cache),
        Err(PathError::InvalidIndex)
    );
    assert_eq!(
        astar_grid::astar3d::try_find_path(0, 7, &grid, (2, 2), &cache),
        Err(PathError::NoPathFound)
    );
    assert_eq!(
        astar_grid::astar3d::try_find_path(0, 3, &grid, (2, 2), &cache),
        Ok(vec![3])
    );
    let walled = vec![1, 1, 1, 0, 1, 1, 1, 1];
    let walled_cache = create_neighbor_idx_cache(&walled, (2, 2), &none, &none);
    assert_eq!(
        astar_grid::astar3d::try_find_path(0, 3, &walled, (2, 2), &walled_cache),
        Err(PathError::ImpassableEndpoint)
    );
}
