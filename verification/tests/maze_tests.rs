use monster_hell::maze::{farthest_point, DoorAxis, MazeData};

/// A `w` by `h` grid, walls on the border, open inside.
fn boxed(w: u32, h: u32) -> Vec<bool> {
    let mut tiles = Vec::new();
    for y in 0..h {
        for x in 0..w {
            tiles.push(x == 0 || y == 0 || x == w - 1 || y == h - 1);
        }
    }
    tiles
}

/// A 25 by 3 grid with one corridor along row 1, from x = 1 to x = 23.
fn corridor() -> MazeData {
    let w = 25u32;
    let h = 3u32;
    let mut tiles = Vec::new();
    for y in 0..h {
        for x in 0..w {
            tiles.push(!(y == 1 && x >= 1 && x <= 23));
        }
    }
    MazeData::centered(w, h, tiles, 2)
}

#[test]
fn centered_puts_the_middle_tile_on_the_origin() {
    let m = MazeData::centered(5, 5, boxed(5, 5), 2);
    assert_eq!(m.origin_x, -4);
    assert_eq!(m.origin_z, -4);
    assert_eq!(m.maze_tile_to_world_center(2, 2), (0, 0));
    assert_eq!(m.maze_tile_to_world_center(0, 0), (-4, -4));
    assert_eq!(m.maze_tile_to_world_center(4, 1), (4, -2));
}

#[test]
fn cell_index_is_row_major() {
    let m = MazeData::centered(5, 5, boxed(5, 5), 2);
    assert_eq!(m.cell_idx(2, 3), 17);
    assert!(m.maze_is_open(2, 3));
    assert!(!m.maze_is_open(0, 3));
}

#[test]
fn world_to_tile_rounds_half_away_from_zero() {
    let m = MazeData::centered(5, 5, boxed(5, 5), 2);
    assert_eq!(m.maze_world_to_tile(0, 0), Some((2, 2)));
    // 5 / 2 = 2.5 rounds to 3
    assert_eq!(m.maze_world_to_tile(1, 1), Some((3, 3)));
    // -1 / 2 = -0.5 rounds to -1: off the grid
    assert_eq!(m.maze_world_to_tile(-5, 0), None);
    assert_eq!(m.maze_world_to_tile(100, 0), None);
    assert_eq!(m.world_to_tile_coords(-5, 100), (-1, 52));
}

#[test]
fn bfs_distances_on_an_open_room() {
    let m = MazeData::centered(5, 5, boxed(5, 5), 2);
    let d = m.maze_bfs_dist((1, 1));
    assert_eq!(d[m.cell_idx(1, 1)], 0);
    assert_eq!(d[m.cell_idx(2, 1)], 1);
    assert_eq!(d[m.cell_idx(3, 3)], 4);
    assert_eq!(d[m.cell_idx(0, 0)], -1);
    assert_eq!(d.len(), 25);
}

#[test]
fn bfs_from_a_wall_reaches_nothing() {
    let m = MazeData::centered(5, 5, boxed(5, 5), 2);
    let d = m.maze_bfs_dist((0, 0));
    assert!(d.iter().all(|&v| v == -1));
}

#[test]
fn bfs_does_not_cross_walls() {
    // two rooms split by a wall column at x = 3
    let mut tiles = boxed(7, 5);
    for y in 0..5 {
        tiles[y * 7 + 3] = true;
    }
    let m = MazeData::centered(7, 5, tiles, 2);
    let d = m.maze_bfs_dist((1, 1));
    assert_eq!(d[m.cell_idx(2, 3)], 3);
    assert_eq!(d[m.cell_idx(4, 1)], -1);
    assert_eq!(d[m.cell_idx(5, 3)], -1);
}

#[test]
fn door_goes_on_the_farthest_chokepoint_before_the_exit() {
    let m = corridor();
    let d = m.maze_bfs_dist((1, 1));
    assert_eq!(d[m.cell_idx(23, 1)], 22);
    let door = m.pick_locked_door_tile(&d, (23, 1));
    assert_eq!(door, Some(((17, 1), DoorAxis::Ew, 16)));
}

#[test]
fn no_door_when_the_exit_is_too_close() {
    let m = corridor();
    let d = m.maze_bfs_dist((1, 1));
    assert_eq!(m.pick_locked_door_tile(&d, (12, 1)), None);
    assert_eq!(m.pick_locked_door_tile(&d, (1, 1)), None);
    assert_eq!(m.pick_locked_door_tile(&d, (0, 0)), None);
}

#[test]
fn door_in_a_vertical_corridor_faces_north_south() {
    let w = 3u32;
    let h = 25u32;
    let mut tiles = Vec::new();
    for y in 0..h {
        for x in 0..w {
            tiles.push(!(x == 1 && y >= 1 && y <= 23));
        }
    }
    let m = MazeData::centered(w, h, tiles, 2);
    let d = m.maze_bfs_dist((1, 23));
    let door = m.pick_locked_door_tile(&d, (1, 1));
    // distances 10..=16 lie at y = 13..=7; the first of greatest distance is y = 7
    assert_eq!(door, Some(((1, 7), DoorAxis::Ns, 16)));
}

#[test]
fn tiles_in_a_distance_range_come_in_scan_order() {
    let m = corridor();
    let d = m.maze_bfs_dist((1, 1));
    let c = m.tiles_in_dist_range(&d, 3, 5);
    assert_eq!(c, vec![(4, 1), (5, 1), (6, 1)]);
    assert!(m.tiles_in_dist_range(&d, 30, 40).is_empty());
}

#[test]
fn spawn_search_keeps_a_walkable_preferred_tile() {
    let m = MazeData::centered(5, 5, boxed(5, 5), 2);
    assert_eq!(m.pick_spawn_tile(2, 3), Some((2, 3)));
    assert_eq!(m.pick_spawn_world(2, 3), (0, 2));
}

#[test]
fn spawn_search_scans_rings_in_order() {
    let m = MazeData::centered(5, 5, boxed(5, 5), 2);
    // from the corner wall, ring 1 first finds (1, 1)
    assert_eq!(m.pick_spawn_tile(0, 0), Some((1, 1)));
    // far off the grid nothing lies within 119 rings
    assert_eq!(m.pick_spawn_tile(1000, 1000), None);
    assert_eq!(m.pick_spawn_world(1000, 1000), (0, 0));
}

#[test]
fn farthest_point_keeps_the_first_of_equal_distance() {
    let pts = vec![(0, 0), (3, 4), (-3, -4), (1, 1)];
    assert_eq!(farthest_point(&pts, (0, 0)), (3, 4));
    assert_eq!(farthest_point(&vec![], (5, 5)), (0, 0));
}

#[test]
fn wall_centers_list_the_walls_row_by_row() {
    let m = MazeData::centered(3, 3, boxed(3, 3), 2);
    let w = m.wall_centers();
    assert_eq!(
        w,
        vec![(-2, -2), (0, -2), (2, -2), (-2, 0), (2, 0), (-2, 2), (0, 2), (2, 2)]
    );
}

#[test]
fn random_walkable_tiles_are_interior_and_open() {
    let m = corridor();
    let mut rng = monster_hell::layout::floor_rng(7, 1);
    for _ in 0..50 {
        let t = m.random_walkable_tile(&mut rng).unwrap();
        assert!(t.0 >= 1 && t.0 <= 23 && t.1 == 1);
        let p = m.random_walkable_tile_world(&mut rng);
        assert_eq!(p.1, 0);
    }
}

#[test]
fn random_walkable_tile_gives_up_on_a_solid_grid() {
    let m = MazeData::centered(5, 5, vec![true; 25], 2);
    let mut rng = monster_hell::layout::floor_rng(1, 1);
    assert_eq!(m.random_walkable_tile(&mut rng), None);
    assert_eq!(m.random_walkable_tile_world(&mut rng), (0, 10));
}

#[test]
fn exit_is_far_from_the_spawn() {
    let m = corridor();
    let mut rng = monster_hell::layout::floor_rng(3, 2);
    let spawn = m.maze_tile_to_world_center(1, 1);
    let exit = m.pick_exit_world(spawn, &mut rng);
    // 600 samples over 23 tiles all but surely include the far end
    assert_eq!(exit, m.maze_tile_to_world_center(23, 1));
}

#[test]
fn distance_picks_stay_in_range() {
    let m = corridor();
    let d = m.maze_bfs_dist((1, 1));
    let mut rng = monster_hell::layout::floor_rng(11, 3);
    for _ in 0..20 {
        let t = m.pick_tile_with_dist_range(&d, 3, 5, &mut rng).unwrap();
        assert!(t.0 >= 4 && t.0 <= 6 && t.1 == 1);
    }
    assert_eq!(m.pick_tile_with_dist_range(&d, 3, 3, &mut rng), Some((4, 1)));
    assert_eq!(m.pick_tile_with_dist_range(&d, 50, 60, &mut rng), None);
}

#[test]
fn no_candidate_leaves_the_generator_alone() {
    let m = corridor();
    let d = m.maze_bfs_dist((1, 1));
    let mut rng = monster_hell::layout::floor_rng(4, 4);
    let before = rng.clone();
    assert_eq!(m.pick_tile_with_dist_range(&d, 50, 60, &mut rng), None);
    assert!(rng == before);
    assert!(m.pick_tile_with_dist_range(&d, 3, 5, &mut rng).is_some());
    assert!(rng != before);
}
