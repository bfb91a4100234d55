use monster_hell::generate::{carve_all, generate_rooms_and_corridors_tiles, overlaps_any};
use monster_hell::layout::{
    enemy_count, floor_rng, floor_seed, generate_floor_maze, near_any,
    place_enemies, plan_door_from_dist, plan_first_floor, plan_locked_door, plan_next_floor,
    treasure_kind, MAZE_CELLS, SEED_MIX,
};
use monster_hell::maze::{DoorAxis, MazeData};
use monster_hell::rules::ItemKind;

fn corridor() -> MazeData {
    let w = 25u32;
    let h = 3u32;
    let mut tiles = Vec::new();
    for y in 0..h {
        for x in 0..w {
            tiles.push(!(y == 1 && x >= 1 && x <= 23));
        }
    }
    MazeData::centered(w, h, tiles, 2)
}

fn dist2(a: (i32, i32), b: (i32, i32)) -> i64 {
    let dx = a.0 as i64 - b.0 as i64;
    let dz = a.1 as i64 - b.1 as i64;
    dx * dx + dz * dz
}

#[test]
fn floor_seed_mixes_the_floor_number() {
    assert_eq!(floor_seed(0, 1), 0x9E37_79B9_7F4A_7C15);
    assert_eq!(floor_seed(5, 0), 5);
    assert_eq!(floor_seed(u64::MAX, 2), u64::MAX ^ 2u64.wrapping_mul(SEED_MIX));
    assert_eq!(floor_seed(42, 3), 42 ^ 3u64.wrapping_mul(0x9E37_79B9_7F4A_7C15));
}

#[test]
fn two_enemies_per_floor_up_to_twenty() {
    assert_eq!(enemy_count(1), 2);
    assert_eq!(enemy_count(4), 8);
    assert_eq!(enemy_count(10), 20);
    assert_eq!(enemy_count(11), 20);
    assert_eq!(enemy_count(0), 0);
}

#[test]
fn treasure_rolls_split_forty_thirty_five_twenty_five() {
    assert_eq!(treasure_kind(0), ItemKind::Health(25));
    assert_eq!(treasure_kind(39), ItemKind::Health(25));
    assert_eq!(treasure_kind(40), ItemKind::Shotgun { ammo: 8 });
    assert_eq!(treasure_kind(74), ItemKind::Shotgun { ammo: 8 });
    assert_eq!(treasure_kind(75), ItemKind::AmmoShells(6));
    assert_eq!(treasure_kind(99), ItemKind::AmmoShells(6));
}

#[test]
fn generated_grid_has_the_requested_shape() {
    let mut rng = floor_rng(1234, 1);
    let (tw, th, tiles) = generate_rooms_and_corridors_tiles(15, 15, &mut rng);
    assert_eq!((tw, th), (31, 31));
    assert_eq!(tiles.len(), 961);
    assert!(tiles.iter().any(|&t| !t));
    assert!(tiles.iter().any(|&t| t));
}

#[test]
fn generation_is_deterministic_for_a_seed_and_floor() {
    let a = generate_rooms_and_corridors_tiles(15, 15, &mut floor_rng(99, 3)).2;
    let b = generate_rooms_and_corridors_tiles(15, 15, &mut floor_rng(99, 3)).2;
    assert_eq!(a, b);
}

#[test]
fn overlap_test_keeps_a_one_tile_gap() {
    let rooms = vec![(1u32, 1u32, 8u32, 8u32)];
    assert!(overlaps_any(&rooms, (9, 1, 16, 8)));
    assert!(!overlaps_any(&rooms, (10, 1, 17, 8)));
    assert!(!overlaps_any(&vec![], (1, 1, 8, 8)));
}

#[test]
fn floor_maze_is_centred_on_the_origin() {
    let mut rng = floor_rng(7, 1);
    let m = generate_floor_maze(&mut rng);
    assert_eq!(m.tiles_w, 2 * MAZE_CELLS + 1);
    assert_eq!(m.tiles_h, 31);
    assert_eq!(m.tile_size, 2);
    assert_eq!(m.origin_x, -30);
    assert_eq!(m.origin_z, -30);
    assert_eq!(m.tiles.len(), 961);
}

#[test]
fn door_plan_on_a_corridor() {
    let m = corridor();
    let d = m.maze_bfs_dist((1, 1));
    let mut rng = floor_rng(5, 2);
    let plan = plan_door_from_dist(&m, &d, (23, 1), &mut rng).unwrap();
    assert_eq!(plan.tile, (17, 1));
    assert_eq!(plan.axis, DoorAxis::Ew);
    assert_eq!(plan.dist, 16);
    // the key lies 3 to 10 steps from the spawn, before the door
    let k = plan.key_tile.unwrap();
    assert!(k.1 == 1 && k.0 >= 4 && k.0 <= 11);
    // two or three items lie 20 to 22 steps out, well behind the door
    assert!(plan.treasures.len() >= 2 && plan.treasures.len() <= 3);
    for (t, kind) in &plan.treasures {
        assert!(t.1 == 1 && t.0 >= 21 && t.0 <= 23);
        assert!(matches!(
            kind,
            ItemKind::Health(25) | ItemKind::Shotgun { ammo: 8 } | ItemKind::AmmoShells(6)
        ));
    }
}

#[test]
fn door_plan_from_world_positions() {
    let m = corridor();
    let mut rng = floor_rng(5, 2);
    let spawn = m.maze_tile_to_world_center(1, 1);
    let exit = m.maze_tile_to_world_center(23, 1);
    let plan = plan_locked_door(&m, spawn, exit, &mut rng).unwrap();
    assert_eq!(plan.tile, (17, 1));
    // a spawn off the grid gives no door
    assert!(plan_locked_door(&m, (1000, 0), exit, &mut rng).is_none());
    // an exit too near gives no door
    let near_exit = m.maze_tile_to_world_center(12, 1);
    assert!(plan_locked_door(&m, spawn, near_exit, &mut rng).is_none());
}

#[test]
fn key_is_reached_before_the_door() {
    let m = corridor();
    let d = m.maze_bfs_dist((1, 1));
    for seed in 0..20u64 {
        let mut rng = floor_rng(seed, 1);
        let plan = plan_door_from_dist(&m, &d, (23, 1), &mut rng).unwrap();
        let k = plan.key_tile.unwrap();
        assert!(d[m.cell_idx(k.0, k.1)] < plan.dist);
        // along the corridor the walk to the key stops short of the door
        assert!(k.0 < plan.tile.0);
    }
}

#[test]
fn near_compares_squared_distance() {
    assert!(monster_hell::layout::near((0, 0), (3, 4), 26));
    assert!(!monster_hell::layout::near((0, 0), (3, 4), 25));
    assert!(near_any(&vec![(10, 10), (0, 1)], (0, 0), 4));
    assert!(!near_any(&vec![(10, 10), (0, 2)], (0, 0), 4));
}

#[test]
fn enemies_keep_their_distances() {
    let mut rng = floor_rng(77, 4);
    let m = generate_floor_maze(&mut rng);
    let safe = (0, 0);
    let placed = place_enemies(&m, 8, safe, 200, false, &mut rng);
    assert!(placed.len() <= 8);
    for (i, p) in placed.iter().enumerate() {
        assert!(dist2(*p, safe) >= 64);
        for q in &placed[..i] {
            assert!(dist2(*p, *q) >= 4);
        }
    }
}

#[test]
fn first_floor_plan_is_deterministic_and_sound() {
    let make = || {
        let mut rng = floor_rng(2024, 1);
        let m = generate_floor_maze(&mut rng);
        plan_first_floor(m, (15, 18), 1, &mut rng)
    };
    let a = make();
    let b = make();
    assert_eq!(a.spawn_world, b.spawn_world);
    assert_eq!(a.exit_world, b.exit_world);
    assert_eq!(a.enemies, b.enemies);
    assert_eq!(a.door.as_ref().map(|d| d.tile), b.door.as_ref().map(|d| d.tile));
    assert!(a.enemies.len() <= 2);
    let s = a.maze.maze_world_to_tile(a.spawn_world.0, a.spawn_world.1).unwrap();
    assert!(a.maze.maze_is_open(s.0, s.1));
    for e in &a.enemies {
        assert!(dist2(*e, a.spawn_world) >= 64);
    }
}

#[test]
fn next_floor_plan_has_no_door_and_keeps_enemies_off_the_drop_point() {
    let mut rng = floor_rng(2024, 3);
    let m = generate_floor_maze(&mut rng);
    let f = plan_next_floor(m, 3, &mut rng);
    assert!(f.door.is_none());
    assert!(f.enemies.len() <= 6);
    for e in &f.enemies {
        assert!(dist2(*e, f.spawn_world) >= 64);
    }
}

#[test]
fn carving_opens_exactly_the_rectangles() {
    let tiles = carve_all(5, 4, &vec![(1, 1, 2, 1), (3, 2, 3, 3)]);
    let open: Vec<usize> = (0..20).filter(|&i| !tiles[i]).collect();
    assert_eq!(open, vec![6, 7, 13, 18]);
    assert!(carve_all(3, 3, &vec![]).iter().all(|&t| t));
}

#[test]
fn generated_floors_are_one_region() {
    for seed in 0..10u64 {
        let mut rng = floor_rng(seed, 1 + (seed as u32 % 10));
        let m = generate_floor_maze(&mut rng);
        let open: Vec<(u32, u32)> = (0..31u32)
            .flat_map(|y| (0..31u32).map(move |x| (x, y)))
            .filter(|&(x, y)| m.maze_is_open(x, y))
            .collect();
        // at least the first drawn room is carved
        assert!(open.len() >= 64);
        let d = m.maze_bfs_dist(open[0]);
        for &(x, y) in &open {
            assert!(d[m.cell_idx(x, y)] >= 0);
        }
    }
}

#[test]
fn exit_is_reachable_from_the_spawn() {
    for seed in 0..10u64 {
        let mut rng = floor_rng(seed, 1);
        let m = generate_floor_maze(&mut rng);
        let f = plan_first_floor(m, (15, 15), 1, &mut rng);
        let s = f.maze.maze_world_to_tile(f.spawn_world.0, f.spawn_world.1).unwrap();
        let e = f.maze.maze_world_to_tile(f.exit_world.0, f.exit_world.1).unwrap();
        let d = f.maze.maze_bfs_dist(s);
        assert!(d[f.maze.cell_idx(e.0, e.1)] >= 0);
    }
}

#[test]
fn next_floor_plan_is_deterministic_for_a_seed_and_floor() {
    let make = || {
        let mut rng = floor_rng(7, 4);
        let m = generate_floor_maze(&mut rng);
        plan_next_floor(m, 4, &mut rng)
    };
    let a = make();
    let b = make();
    assert_eq!(a.maze.tiles, b.maze.tiles);
    assert_eq!(a.spawn_world, b.spawn_world);
    assert_eq!(a.exit_world, b.exit_world);
    assert_eq!(a.enemies, b.enemies);
}

#[test]
fn door_key_and_items_repeat_for_one_generator_state() {
    let m = corridor();
    let d = m.maze_bfs_dist((1, 1));
    let a = plan_door_from_dist(&m, &d, (23, 1), &mut floor_rng(5, 2)).unwrap();
    let b = plan_door_from_dist(&m, &d, (23, 1), &mut floor_rng(5, 2)).unwrap();
    assert_eq!(a.tile, b.tile);
    assert_eq!(a.key_tile, b.key_tile);
    assert_eq!(a.treasures, b.treasures);
}

#[test]
fn different_floors_draw_different_mazes() {
    let a = generate_rooms_and_corridors_tiles(15, 15, &mut floor_rng(99, 1)).2;
    let b = generate_rooms_and_corridors_tiles(15, 15, &mut floor_rng(99, 2)).2;
    let c = generate_rooms_and_corridors_tiles(15, 15, &mut floor_rng(99, 3)).2;
    assert!(a != b || b != c);
}
