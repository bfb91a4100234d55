use vstd::prelude::*;
use rand::rngs::StdRng;
use crate::generate::{
    generate_rooms_and_corridors_tiles, generated_layout, kept_rooms, layout_draws, lemma_generated_layout_unique, lemma_first_room_kept,
    lemma_generated_layout_connected, room_shape_ok, TileRect, lemma_room_draws_len, carve_list, in_rect,
};
use crate::maze::{
    lemma_bfs_distance_unique, lemma_door_best_unique, lemma_spawn_world_unique, dist2, cell_index, spawn_walkable, ring_radius, spawn_search_radius, is_spawn_choice, door_best_so_far, exit_world_choice, fallback_world, in_dist_range, is_bfs_distance,
    is_walk, is_walkable_center, spawn_world_choice, lemma_bfs_distance_has_walk, lemma_cell_index_bounds, round_div, DoorAxis,
    open_connected, reachable, tile_pick, walkable_world_draw, world_samples, farthest_scan, MazeData, MAX_CELLS,
};
use crate::rng::{draw_below, draw_between, gen_below, gen_between, seeded_generator, seeded_rng, skip_draw, skip_u64};
use crate::rules::ItemKind;

verus! {

/// Rooms across and down the generated maze (the grid is twice this plus one).
pub const MAZE_CELLS: u32 = 15;

/// World size of one maze tile.
pub const MAZE_TILE_SIZE: i32 = 2;

/// Multiplier that spreads floor numbers over the seed space.
pub const SEED_MIX: u64 = 0x9E37_79B9_7F4A_7C15;

/// Highest number of enemies on a floor.
pub const MAX_ENEMIES: u32 = 20;

/// The locked door of a floor, its key and the items placed farther out.
pub struct LockedDoorPlan {
    pub tile: (u32, u32),
    pub axis: DoorAxis,
    /// Distance, in steps from the spawn tile, of the door tile.
    pub dist: i32,
    pub key_tile: Option<(u32, u32)>,
    pub treasures: Vec<((u32, u32), ItemKind)>,
}

/// Everything drawn for one maze floor, in world coordinates on the ground
/// plane where not stated otherwise.
pub struct FloorLayout {
    pub maze: MazeData,
    pub spawn_world: (i32, i32),
    pub exit_world: (i32, i32),
    pub door: Option<LockedDoorPlan>,
    pub enemies: Vec<(i32, i32)>,
}

/// Seed of the generator for `floor`, derived from the level plan's seed.
pub fn floor_seed(seed: u64, floor: u32) -> (r: u64)
    ensures
        r == seed ^ (((floor as nat) * (SEED_MIX as nat)) % 0x1_0000_0000_0000_0000) as u64,
{
    seed ^ (floor as u64).wrapping_mul(SEED_MIX)
}

/// The generator state a floor is drawn from: seeded from the level seed
/// mixed with the floor number.
pub open spec fn floor_generator(seed: u64, floor: u32) -> StdRng {
    seeded_generator(seed ^ (((floor as nat) * (SEED_MIX as nat)) % 0x1_0000_0000_0000_0000) as u64)
}

/// The generator that lays out `floor` of the level with seed `seed`: the
/// one seeded from `floor_seed(seed, floor)`, so that a level seed and a
/// floor number always give the same generator.
pub fn floor_rng(seed: u64, floor: u32) -> (r: StdRng)
    ensures
        r == floor_generator(seed, floor),
{
    seeded_rng(floor_seed(seed, floor))
}

/// Number of enemies placed on `floor`: two per floor, at most twenty.
pub open spec fn enemy_count_spec(floor: u32) -> int {
    if floor * 2 <= MAX_ENEMIES {
        floor * 2
    } else {
        MAX_ENEMIES as int
    }
}

/// Number of enemies placed on `floor` (see `enemy_count_spec`).
pub fn enemy_count(floor: u32) -> (r: u32)
    requires
        floor <= u32::MAX / 2,
    ensures
        r == enemy_count_spec(floor),
{
    let c = floor * 2;
    if c <= MAX_ENEMIES {
        c
    } else {
        MAX_ENEMIES
    }
}

/// Two enemies per floor up to the tenth floor, twenty on every floor below
/// it.
pub proof fn lemma_enemy_count_two_per_floor(floor: u32)
    ensures
        floor <= 10 ==> enemy_count_spec(floor) == 2 * floor,
        floor >= 10 ==> enemy_count_spec(floor) == 20,
{
}

/// Deeper floors hold at least as many enemies as the floors above them,
/// and up to the tenth floor strictly more.
pub proof fn lemma_enemy_count_grows(f1: u32, f2: u32)
    requires
        f1 <= f2,
    ensures
        enemy_count_spec(f1) <= enemy_count_spec(f2),
        f1 < f2 <= 10 ==> enemy_count_spec(f1) < enemy_count_spec(f2),
        enemy_count_spec(f2) <= MAX_ENEMIES,
{
}

/// The item found behind the locked door for a roll in `0..100`: a medkit
/// below 40, a shotgun below 75, shotgun shells otherwise.
pub fn treasure_kind(roll: u32) -> (k: ItemKind)
    ensures
        k == treasure_kind_spec(roll),
        roll < 40 ==> k == ItemKind::Health(25),
        40 <= roll < 75 ==> k == (ItemKind::Shotgun { ammo: 8 }),
        75 <= roll ==> k == ItemKind::AmmoShells(6),
{
    if roll < 40 {
        ItemKind::Health(25)
    } else if roll < 75 {
        ItemKind::Shotgun { ammo: 8 }
    } else {
        ItemKind::AmmoShells(6)
    }
}

/// The item behind the locked door for roll `roll`.
pub open spec fn treasure_kind_spec(roll: u32) -> ItemKind {
    if roll < 40 {
        ItemKind::Health(25)
    } else if roll < 75 {
        ItemKind::Shotgun { ammo: 8 }
    } else {
        ItemKind::AmmoShells(6)
    }
}

/// The items behind a door at distance `door_d` after `n` draws from state
/// `g`, with the generator state after them: each draw picks a tile 4 to 16
/// steps beyond the door and, when there is one, rolls its kind in `0..100`.
pub open spec fn treasure_draws(m: &MazeData, d: Seq<i32>, door_d: int, g: StdRng, n: nat) -> (
    Seq<((u32, u32), ItemKind)>,
    StdRng,
)
    decreases n,
{
    if n == 0 {
        (Seq::empty(), g)
    } else {
        let (prev, g1) = treasure_draws(m, d, door_d, g, (n - 1) as nat);
        let (spot, g2) = tile_pick(m, d, door_d + 4, door_d + 16, g1);
        match spot {
            Some(t) => {
                let (roll, g3) = gen_below(g2, 0, 100);
                (prev.push((t, treasure_kind_spec(roll))), g3)
            },
            None => (prev, g2),
        }
    }
}

/// Key tile, items and generator state drawn from state `g` for a door at
/// distance `door_d`: the key on a tile 3 to `door_d - 6` (at least 3)
/// steps from the spawn, then a count in `2..=3`, then that many item draws.
pub open spec fn door_extras(m: &MazeData, d: Seq<i32>, door_d: int, g: StdRng) -> (
    Option<(u32, u32)>,
    Seq<((u32, u32), ItemKind)>,
    StdRng,
) {
    let key_max = if door_d - 6 >= 3 {
        door_d - 6
    } else {
        3
    };
    let (key, g1) = tile_pick(m, d, 3, key_max, g);
    let (count, g2) = gen_between(g1, 2, 3);
    let (ts, g3) = treasure_draws(m, d, door_d, g2, count as nat);
    (key, ts, g3)
}

/// The draws of a door plan from state `g` leaving state `g2`: none without
/// a door, otherwise the key and items of `door_extras`.
pub open spec fn door_draws(m: &MazeData, d: Seq<i32>, r: Option<LockedDoorPlan>, g: StdRng, g2: StdRng) -> bool {
    match r {
        None => g2 == g,
        Some(plan) => (plan.key_tile, plan.treasures@, g2) == door_extras(m, d, plan.dist as int, g),
    }
}

/// A kind that can lie behind the locked door.
pub open spec fn is_treasure_kind(k: ItemKind) -> bool {
    k == ItemKind::Health(25) || k == (ItemKind::Shotgun { ammo: 8 }) || k == ItemKind::AmmoShells(6)
}

/// `m` is the floor maze drawn from state `g`, leaving state `g_end`: the
/// grid of `2 * MAZE_CELLS + 1` tiles each way, centred on the world origin,
/// whose walkable tiles are the rooms and corridors of `layout_draws(g, ..)`.
pub open spec fn floor_maze_drawn(g: StdRng, m: &MazeData, g_end: StdRng) -> bool {
    let tw = (2 * MAZE_CELLS + 1) as u32;
    let draws = layout_draws(g, tw, tw);
    &&& m.tiles_w == tw
    &&& m.tiles_h == tw
    &&& m.tile_size == MAZE_TILE_SIZE
    &&& m.origin_x == -(MAZE_CELLS as int) * MAZE_TILE_SIZE
    &&& m.origin_z == -(MAZE_CELLS as int) * MAZE_TILE_SIZE
    &&& generated_layout(tw as int, tw as int, kept_rooms(draws.0), draws.1, m.tiles@)
    &&& g_end == draws.2
}

/// A floor's maze is fixed by the generator state it is drawn from, and so,
/// through `floor_generator`, by the level seed and the floor number: two
/// mazes drawn from one state have the same grid and tiles and leave the
/// same state.
pub proof fn lemma_floor_maze_deterministic(g: StdRng, m1: &MazeData, e1: StdRng, m2: &MazeData, e2: StdRng)
    requires
        floor_maze_drawn(g, m1, e1),
        floor_maze_drawn(g, m2, e2),
    ensures
        m1.tiles_w == m2.tiles_w,
        m1.tiles_h == m2.tiles_h,
        m1.tile_size == m2.tile_size,
        m1.origin_x == m2.origin_x,
        m1.origin_z == m2.origin_z,
        m1.tiles@ == m2.tiles@,
        e1 == e2,
{
    let tw = (2 * MAZE_CELLS + 1) as u32;
    let draws = layout_draws(g, tw, tw);
    lemma_generated_layout_unique(tw as int, tw as int, kept_rooms(draws.0), draws.1, m1.tiles@, m2.tiles@);
}

/// A floor maze: the rooms-and-corridors grid of `MAZE_CELLS` rooms each way,
/// centred on the world origin with tiles `MAZE_TILE_SIZE` wide.
pub fn generate_floor_maze(rng: &mut StdRng) -> (m: MazeData)
    ensures
        m.wf(),
        m.tiles_w == 2 * MAZE_CELLS + 1,
        m.tiles_h == 2 * MAZE_CELLS + 1,
        m.tile_size == MAZE_TILE_SIZE,
        m.origin_x == -(MAZE_CELLS as int) * MAZE_TILE_SIZE,
        m.origin_z == -(MAZE_CELLS as int) * MAZE_TILE_SIZE,
        exists|cands: Seq<TileRect>, choices: Seq<bool>|
            {
                &&& 6 <= cands.len() <= 8
                &&& forall|i: int|
                    0 <= i < cands.len() ==> room_shape_ok(#[trigger] cands[i], m.w(), m.h())
                &&& #[trigger] generated_layout(m.w(), m.h(), kept_rooms(cands), choices, m.tiles@)
            },
        open_connected(&m),
        floor_maze_drawn(*old(rng), &m, *final(rng)),
{
    assert((2 * MAZE_CELLS + 1) * (2 * MAZE_CELLS + 1) == 961) by (nonlinear_arith)
        requires
            MAZE_CELLS == 15,
    ;
    let (tw, th, tiles) = generate_rooms_and_corridors_tiles(MAZE_CELLS, MAZE_CELLS, rng);
    assert(tw * th == 961) by (nonlinear_arith)
        requires
            tw == 31,
            th == 31,
    ;
    let m = MazeData::centered(tw, th, tiles, MAZE_TILE_SIZE);
    proof {
        let (cands, choices) = choose|cands: Seq<TileRect>, choices: Seq<bool>|
            {
                &&& 6 <= cands.len() <= 8
                &&& forall|i: int|
                    0 <= i < cands.len() ==> room_shape_ok(#[trigger] cands[i], tw as int, th as int)
                &&& #[trigger] generated_layout(tw as int, th as int, kept_rooms(cands), choices, tiles@)
            };
        lemma_first_room_kept(cands);
        lemma_generated_layout_connected(&m, kept_rooms(cands), choices);
    }
    m
}

/// The properties of the locked-door plan drawn for distance field `d`.
pub open spec fn door_plan_ok(m: &MazeData, d: Seq<i32>, exit_d: int, plan: LockedDoorPlan) -> bool {
    let key_max = if plan.dist - 6 >= 3 { plan.dist - 6 } else { 3 };
    &&& door_best_so_far(m, d, exit_d, Some((plan.tile, plan.axis, plan.dist)), 0, m.h() - 1)
    &&& plan.key_tile is None <==> forall|cx: int, cy: int|
        #![trigger d[m.idx(cx, cy)]]
        !in_dist_range(m, d, 3, key_max, cx, cy)
    &&& plan.key_tile matches Some(k) ==> in_dist_range(m, d, 3, key_max, k.0 as int, k.1 as int)
    &&& plan.treasures@.len() <= 3
    &&& (forall|cx: int, cy: int|
        #![trigger d[m.idx(cx, cy)]]
        !in_dist_range(m, d, plan.dist + 4, plan.dist + 16, cx, cy)) ==> plan.treasures@.len() == 0
    &&& (exists|cx: int, cy: int|
        #![trigger d[m.idx(cx, cy)]]
        in_dist_range(m, d, plan.dist + 4, plan.dist + 16, cx, cy)) ==> plan.treasures@.len() >= 2
    &&& forall|i: int|
        0 <= i < plan.treasures@.len() ==> {
            &&& in_dist_range(
                m,
                d,
                plan.dist + 4,
                plan.dist + 16,
                (#[trigger] plan.treasures@[i]).0.0 as int,
                plan.treasures@[i].0.1 as int,
            )
            &&& is_treasure_kind(plan.treasures@[i].1)
        }
}

/// What the locked-door planner may return for distance field `d` and the
/// exit tile `(ex, ey)`: a plan meeting `door_plan_ok` when the exit is
/// reached and some tile qualifies for the door, `None` otherwise.
pub open spec fn door_outcome(m: &MazeData, d: Seq<i32>, ex: int, ey: int, r: Option<LockedDoorPlan>) -> bool {
    let exit_d = d[m.idx(ex, ey)] as int;
    match r {
        Some(plan) => exit_d > 0 && door_plan_ok(m, d, exit_d, plan),
        None => exit_d <= 0 || door_best_so_far(m, d, exit_d, None, 0, m.h() - 1),
    }
}

/// Places the locked door for the exit tile, given the distance field
/// `dist` from the spawn: the door on the tile chosen by
/// `pick_locked_door_tile`, its key on a random tile 3 to `door - 6` (at
/// least 3) steps from the spawn, and two or three draws for items 4 to 16
/// steps farther out than the door, each kept when such a tile exists.
pub fn plan_door_from_dist(
    m: &MazeData,
    dist: &Vec<i32>,
    exit_tile: (u32, u32),
    rng: &mut StdRng,
) -> (r: Option<LockedDoorPlan>)
    requires
        m.wf(),
        dist@.len() >= m.n(),
        forall|i: int| 0 <= i < dist@.len() ==> #[trigger] dist@[i] < m.n(),
        exit_tile.0 < m.tiles_w,
        exit_tile.1 < m.tiles_h,
    ensures
        door_outcome(m, dist@, exit_tile.0 as int, exit_tile.1 as int, r),
        door_draws(m, dist@, r, *old(rng), *final(rng)),
{
    let picked = m.pick_locked_door_tile(dist, exit_tile);
    match picked {
        None => None,
        Some((door_tile, axis, door_d)) => {
            let ghost ed = dist@[m.idx(exit_tile.0 as int, exit_tile.1 as int)] as int;
            proof {
                let _ = dist@[m.idx(exit_tile.0 as int, exit_tile.1 as int)];
                lemma_cell_index_bounds(m.w(), m.h(), exit_tile.0 as int, exit_tile.1 as int);
            }
            assert(10 <= door_d && door_d <= ed - 6 && ed < MAX_CELLS);
            let key_max = if door_d - 6 >= 3 {
                door_d - 6
            } else {
                3
            };
            let ghost g0 = *rng;
            let key_tile = m.pick_tile_with_dist_range(dist, 3, key_max, rng);
            let ghost g1 = *rng;
            let count = draw_between(rng, 2, 3);
            let ghost g2 = *rng;
            let mut treasures: Vec<((u32, u32), ItemKind)> = Vec::new();
            let mut i: u32 = 0;
            while i < count
                invariant
                    (treasures@, *rng) == treasure_draws(m, dist@, door_d as int, g2, i as nat),
                    m.wf(),
                    dist@.len() >= m.n(),
                    2 <= count <= 3,
                    i <= count,
                    treasures@.len() <= i,
                    (forall|cx: int, cy: int|
                        #![trigger dist@[m.idx(cx, cy)]]
                        !in_dist_range(m, dist@, door_d + 4, door_d + 16, cx, cy))
                        ==> treasures@.len() == 0,
                    (exists|cx: int, cy: int|
                        #![trigger dist@[m.idx(cx, cy)]]
                        in_dist_range(m, dist@, door_d + 4, door_d + 16, cx, cy))
                        ==> treasures@.len() == i,
                    10 <= door_d,
                    door_d < MAX_CELLS,
                    forall|j: int|
                        0 <= j < treasures@.len() ==> {
                            &&& in_dist_range(
                                m,
                                dist@,
                                door_d + 4,
                                door_d + 16,
                                (#[trigger] treasures@[j]).0.0 as int,
                                treasures@[j].0.1 as int,
                            )
                            &&& is_treasure_kind(treasures@[j].1)
                        },
                decreases count - i,
            {
                let spot = m.pick_tile_with_dist_range(dist, door_d + 4, door_d + 16, rng);
                match spot {
                    Some(t) => {
                        let roll = draw_below(rng, 0, 100);
                        let kind = treasure_kind(roll);
                        treasures.push((t, kind));
                    },
                    None => {},
                }
                i = i + 1;
            }
            let plan = LockedDoorPlan { tile: door_tile, axis, dist: door_d, key_tile, treasures };
            assert(door_plan_ok(m, dist@, ed, plan));
            assert((key_tile, g1) == tile_pick(m, dist@, 3, key_max as int, g0));
            assert((count, g2) == gen_between(g1, 2, 3));
            Some(plan)
        },
    }
}

/// The key of a locked-door plan can be fetched without passing the door:
/// some walk from the spawn to the key stays on tiles nearer the spawn than
/// the door tile, so it never steps on the door tile.
pub proof fn lemma_key_before_door(
    m: &MazeData,
    start: (u32, u32),
    d: Seq<i32>,
    exit_d: int,
    plan: LockedDoorPlan,
) -> (p: Seq<(int, int)>)
    requires
        m.wf(),
        is_bfs_distance(m, start, d),
        door_plan_ok(m, d, exit_d, plan),
        plan.key_tile is Some,
    ensures
        is_walk(m, p),
        p[0] == (start.0 as int, start.1 as int),
        plan.key_tile matches Some(k) && p[p.len() - 1] == (k.0 as int, k.1 as int),
        forall|i: int|
            0 <= i < p.len() ==> #[trigger] d[m.idx(p[i].0, p[i].1)] < plan.dist,
        forall|i: int|
            0 <= i < p.len() ==> #[trigger] p[i] != (plan.tile.0 as int, plan.tile.1 as int),
{
    let k = plan.key_tile->0;
    let kx = k.0 as int;
    let ky = k.1 as int;
    assert(10 <= plan.dist);
    assert(d[m.idx(kx, ky)] <= plan.dist - 6);
    let p = lemma_bfs_distance_has_walk(m, start, d, kx, ky);
    assert forall|i: int| 0 <= i < p.len() implies #[trigger] d[m.idx(p[i].0, p[i].1)] < plan.dist by {
        assert(d[m.idx(p[i].0, p[i].1)] == i);
    }
    assert forall|i: int| 0 <= i < p.len() implies #[trigger] p[i] != (
        plan.tile.0 as int,
        plan.tile.1 as int,
    ) by {
        assert(d[m.idx(p[i].0, p[i].1)] == i);
        assert(d[m.idx(plan.tile.0 as int, plan.tile.1 as int)] == plan.dist);
    }
    p
}

/// `r` is a door plan for the spawn and exit at these world positions:
/// none when either lies off the grid, otherwise an outcome allowed by
/// `door_outcome` for the distance field from the spawn tile.
pub open spec fn door_choice(
    m: &MazeData,
    spawn_world: (i32, i32),
    exit_world: (i32, i32),
    r: Option<LockedDoorPlan>,
    g: StdRng,
    g2: StdRng,
) -> bool {
    let sx = round_div(spawn_world.0 - m.origin_x, m.tile_size as int);
    let sy = round_div(spawn_world.1 - m.origin_z, m.tile_size as int);
    let ex = round_div(exit_world.0 - m.origin_x, m.tile_size as int);
    let ey = round_div(exit_world.1 - m.origin_z, m.tile_size as int);
    &&& (!m.in_bounds(sx, sy) || !m.in_bounds(ex, ey)) ==> r is None && g2 == g
    &&& (m.in_bounds(sx, sy) && m.in_bounds(ex, ey)) ==> exists|d: Seq<i32>|
        #[trigger] is_bfs_distance(m, (sx as u32, sy as u32), d) && door_outcome(m, d, ex, ey, r)
            && door_draws(m, d, r, g, g2)
}

/// Tile coordinates of world position `p` (nearest tile centre).
pub open spec fn tile_of(m: &MazeData, p: (i32, i32)) -> (int, int) {
    (round_div(p.0 - m.origin_x, m.tile_size as int), round_div(p.1 - m.origin_z, m.tile_size as int))
}

/// The distance field of the breadth-first search from `s`
/// (`lemma_bfs_distance_unique`: there is only one).
pub open spec fn bfs_of(m: &MazeData, s: (u32, u32)) -> Seq<i32> {
    choose|d: Seq<i32>| is_bfs_distance(m, s, d)
}

/// The door tile, axis and distance chosen for distance field `d` and exit
/// distance `exit_d` (`lemma_door_best_unique`: the search has one answer).
pub open spec fn door_pick_of(m: &MazeData, d: Seq<i32>, exit_d: int) -> Option<((u32, u32), DoorAxis, i32)> {
    if exit_d <= 0 {
        None
    } else {
        choose|r: Option<((u32, u32), DoorAxis, i32)>| #[trigger] door_best_so_far(m, d, exit_d, r, 0, m.h() - 1)
    }
}

/// The door chosen for the spawn and exit at these world positions, with
/// the distance field from the spawn tile: none when either lies off the grid.
pub open spec fn door_pick_for(m: &MazeData, spawn_world: (i32, i32), exit_world: (i32, i32)) -> (
    Option<((u32, u32), DoorAxis, i32)>,
    Seq<i32>,
) {
    let s = tile_of(m, spawn_world);
    let e = tile_of(m, exit_world);
    if !m.in_bounds(s.0, s.1) || !m.in_bounds(e.0, e.1) {
        (None, Seq::empty())
    } else {
        let d = bfs_of(m, (s.0 as u32, s.1 as u32));
        (door_pick_of(m, d, d[m.idx(e.0, e.1)] as int), d)
    }
}

/// `r` is the door plan drawn from state `g` for the spawn and exit at these
/// world positions: no door when none is chosen, otherwise the chosen tile
/// with the key and items of `door_extras`.
pub open spec fn door_plan_is(
    m: &MazeData,
    spawn_world: (i32, i32),
    exit_world: (i32, i32),
    g: StdRng,
    r: Option<LockedDoorPlan>,
) -> bool {
    let (pick, d) = door_pick_for(m, spawn_world, exit_world);
    match pick {
        None => r is None,
        Some((t, axis, dd)) => match r {
            Some(plan) => {
                &&& plan.tile == t
                &&& plan.axis == axis
                &&& plan.dist == dd
                &&& plan.key_tile == door_extras(m, d, dd as int, g).0
                &&& plan.treasures@ == door_extras(m, d, dd as int, g).1
            },
            None => false,
        },
    }
}

/// The generator state after the door plan is drawn from state `g`.
pub open spec fn door_after(m: &MazeData, spawn_world: (i32, i32), exit_world: (i32, i32), g: StdRng) -> StdRng {
    let (pick, d) = door_pick_for(m, spawn_world, exit_world);
    match pick {
        None => g,
        Some((t, axis, dd)) => door_extras(m, d, dd as int, g).2,
    }
}

/// Places the locked door on a corridor chokepoint whose distance from the
/// spawn lies between 10 and the exit's distance less 6, its key nearer the
/// spawn and two or three items farther out (see `plan_door_from_dist`).
/// `None` when the spawn or the exit lies off the grid, or when the
/// distance field from the spawn leaves no such tile.
pub fn plan_locked_door(
    m: &MazeData,
    spawn_world: (i32, i32),
    exit_world: (i32, i32),
    rng: &mut StdRng,
) -> (r: Option<LockedDoorPlan>)
    requires
        m.wf(),
    ensures
        door_choice(m, spawn_world, exit_world, r, *old(rng), *final(rng)),
        door_plan_is(m, spawn_world, exit_world, *old(rng), r),
        *final(rng) == door_after(m, spawn_world, exit_world, *old(rng)),
{
    let spawn_tile = m.maze_world_to_tile(spawn_world.0, spawn_world.1);
    let exit_tile = m.maze_world_to_tile(exit_world.0, exit_world.1);
    match (spawn_tile, exit_tile) {
        (Some(st), Some(et)) => {
            let dist = m.maze_bfs_dist(st);
            let r = plan_door_from_dist(m, &dist, et, rng);
            let ghost sx = round_div(spawn_world.0 - m.origin_x, m.tile_size as int);
            let ghost sy = round_div(spawn_world.1 - m.origin_z, m.tile_size as int);
            assert(st == (sx as u32, sy as u32));
            assert(is_bfs_distance(m, (sx as u32, sy as u32), dist@));
            proof {
                let d = bfs_of(m, st);
                lemma_bfs_distance_unique(m, st, d, dist@);
                let ex = et.0 as int;
                let ey = et.1 as int;
                let ed = d[m.idx(ex, ey)] as int;
                let pick = door_pick_of(m, d, ed);
                if ed > 0 {
                    if r is Some {
                        let plan = r->0;
                        assert(door_best_so_far(m, d, ed, Some((plan.tile, plan.axis, plan.dist)), 0, m.h() - 1));
                        lemma_door_best_unique(m, d, ed, pick, Some((plan.tile, plan.axis, plan.dist)));
                    } else {
                        assert(door_best_so_far(m, d, ed, None, 0, m.h() - 1));
                        lemma_door_best_unique(m, d, ed, pick, None);
                    }
                }
                assert(door_pick_for(m, spawn_world, exit_world) == (pick, d));
            }
            r
        },
        _ => None,
    }
}

/// At most `count` enemy positions, each the centre of an interior walkable
/// tile (or the fallback position), at least 8 world units from `safe` and
/// at least 2 from one another.
pub open spec fn enemies_ok(m: &MazeData, placed: Seq<(i32, i32)>, count: int, safe: (i32, i32)) -> bool {
    &&& placed.len() <= count
    &&& forall|i: int|
        0 <= i < placed.len() ==> is_walkable_center(m, #[trigger] placed[i]) || placed[i]
            == fallback_world()
    &&& forall|i: int| 0 <= i < placed.len() ==> dist2(#[trigger] placed[i], safe) >= 64
    &&& forall|i: int, j: int|
        0 <= i < j < placed.len() ==> dist2(#[trigger] placed[i], #[trigger] placed[j]) >= 4
}

/// The enemies kept from the positions `draws`, taken in turn: while fewer
/// than `count` are kept, a position is kept when it is at least 8 world
/// units from `safe` and at least 2 from every position kept before it.
pub open spec fn kept_enemies(draws: Seq<(i32, i32)>, count: int, safe: (i32, i32)) -> Seq<(i32, i32)>
    decreases draws.len(),
{
    if draws.len() == 0 {
        Seq::empty()
    } else {
        let prev = kept_enemies(draws.drop_last(), count, safe);
        let p = draws.last();
        if prev.len() < count && dist2(p, safe) >= 64 && !(exists|i: int|
            0 <= i < prev.len() && dist2(#[trigger] prev[i], p) < 4) {
            prev.push(p)
        } else {
            prev
        }
    }
}

/// `placed` is what enemy placement keeps from some sequence of draws: at
/// most `count * tries` draws, all of them unless `count` enemies were kept,
/// each the centre of an interior walkable tile or the fallback position,
/// and `placed` the `kept_enemies` of them.
pub open spec fn enemies_from_draws(
    m: &MazeData,
    placed: Seq<(i32, i32)>,
    count: int,
    tries: int,
    safe: (i32, i32),
) -> bool {
    exists|draws: Seq<(i32, i32)>|
        {
            &&& draws.len() <= count * tries
            &&& placed.len() < count ==> draws.len() == count * tries
            &&& forall|i: int|
                0 <= i < draws.len() ==> is_walkable_center(m, #[trigger] draws[i]) || draws[i]
                    == fallback_world()
            &&& placed == #[trigger] kept_enemies(draws, count, safe)
        }
}

/// The enemies kept and the generator state when placement goes on from
/// state `g` with `placed` kept so far and `tries_left` draws allowed:
/// while fewer than `count` are kept and draws remain, one position is
/// drawn (after one skipped draw with `skip`) and kept when it is at least
/// 8 world units from `safe` and at least 2 from every enemy kept before it.
pub open spec fn placement(
    m: &MazeData,
    g: StdRng,
    count: int,
    tries_left: nat,
    safe: (i32, i32),
    skip: bool,
    placed: Seq<(i32, i32)>,
) -> (Seq<(i32, i32)>, StdRng)
    decreases tries_left,
{
    if placed.len() >= count || tries_left == 0 {
        (placed, g)
    } else {
        let g1 = if skip {
            skip_u64(g)
        } else {
            g
        };
        let (p, g2) = walkable_world_draw(m, g1);
        let keep = dist2(p, safe) >= 64 && !(exists|i: int|
            0 <= i < placed.len() && dist2(#[trigger] placed[i], p) < 4);
        placement(
            m,
            g2,
            count,
            (tries_left - 1) as nat,
            safe,
            skip,
            if keep {
                placed.push(p)
            } else {
                placed
            },
        )
    }
}

/// Enemy positions: up to `count` random walkable tile positions, drawn at
/// most `count * tries_per_enemy` times, keeping only those at least 8 world
/// units from `safe` and at least 2 from every enemy already placed
/// (`kept_enemies` of the positions drawn). Drawing stops once `count` are
/// kept. With `skip_extra_draw` the generator skips one draw before each
/// attempt.
pub fn place_enemies(
    m: &MazeData,
    count: u32,
    safe: (i32, i32),
    tries_per_enemy: u32,
    skip_extra_draw: bool,
    rng: &mut StdRng,
) -> (placed: Vec<(i32, i32)>)
    requires
        m.wf(),
        m.tiles_w >= 3,
        m.tiles_h >= 3,
        count as int * tries_per_enemy as int <= u32::MAX,
    ensures
        enemies_ok(m, placed@, count as int, safe),
        enemies_from_draws(m, placed@, count as int, tries_per_enemy as int, safe),
        (placed@, *final(rng)) == placement(
            m,
            *old(rng),
            count as int,
            (count * tries_per_enemy) as nat,
            safe,
            skip_extra_draw,
            Seq::empty(),
        ),
{
    let mut placed: Vec<(i32, i32)> = Vec::new();
    let max_tries = count * tries_per_enemy;
    let mut tries: u32 = 0;
    let ghost mut draws: Seq<(i32, i32)> = Seq::empty();
    let ghost g0 = *rng;
    while (placed.len() as u64) < (count as u64) && tries < max_tries
        invariant
            g0 == *old(rng),
            placement(m, *rng, count as int, (max_tries - tries) as nat, safe, skip_extra_draw, placed@)
                == placement(
                m,
                g0,
                count as int,
                max_tries as nat,
                safe,
                skip_extra_draw,
                Seq::empty(),
            ),
            m.wf(),
            m.tiles_w >= 3,
            m.tiles_h >= 3,
            placed@.len() <= count,
            tries <= max_tries,
            max_tries == count * tries_per_enemy,
            draws.len() == tries,
            placed@ == kept_enemies(draws, count as int, safe),
            forall|i: int|
                0 <= i < draws.len() ==> is_walkable_center(m, #[trigger] draws[i]) || draws[i]
                    == fallback_world(),
            forall|i: int|
                0 <= i < placed@.len() ==> is_walkable_center(m, #[trigger] placed@[i])
                    || placed@[i] == fallback_world(),
            forall|i: int| 0 <= i < placed@.len() ==> dist2(#[trigger] placed@[i], safe) >= 64,
            forall|i: int, j: int|
                0 <= i < j < placed@.len() ==> dist2(#[trigger] placed@[i], #[trigger] placed@[j])
                    >= 4,
        decreases max_tries - tries,
    {
        let ghost g_before = *rng;
        let ghost tl = (max_tries - tries) as nat;
        tries = tries + 1;
        if skip_extra_draw {
            skip_draw(rng);
        }
        let p = m.random_walkable_tile_world(rng);
        proof {
            let g1 = if skip_extra_draw {
                skip_u64(g_before)
            } else {
                g_before
            };
            assert((p, *rng) == walkable_world_draw(m, g1));
            assert(placed@.len() < count && tl > 0);
        }
        let ghost prev_draws = draws;
        proof {
            draws = draws.push(p);
            assert(draws.drop_last() =~= prev_draws);
            assert(draws.last() == p);
            assert forall|i: int|
                0 <= i < draws.len() implies is_walkable_center(m, #[trigger] draws[i]) || draws[i]
                == fallback_world() by {
                if i < prev_draws.len() {
                    assert(draws[i] == prev_draws[i]);
                }
            }
        }
        if near(p, safe, 64) {
            continue;
        }
        if near_any(&placed, p, 4) {
            continue;
        }
        let ghost before = placed@;
        placed.push(p);
        proof {
            assert forall|i: int, j: int|
                0 <= i < j < placed@.len() implies dist2(
                #[trigger] placed@[i],
                #[trigger] placed@[j],
            ) >= 4 by {
                assert(placed@[i] == before[i]);
                if j < before.len() {
                    assert(placed@[j] == before[j]);
                } else {
                    assert(dist2(before[i], p) == dist2(placed@[i], placed@[j]));
                }
            }
        }
    }
    placed
}

/// Whether `a` and `b` are closer than the square root of `limit2`.
pub fn near(a: (i32, i32), b: (i32, i32), limit2: i128) -> (r: bool)
    ensures
        r == (dist2(a, b) < limit2),
{
    let dx = a.0 as i128 - b.0 as i128;
    let dz = a.1 as i128 - b.1 as i128;
    proof {
        assert(0 <= dx * dx <= 0x1_0000_0000_0000_0000) by (nonlinear_arith)
            requires
                -0x1_0000_0000 <= dx <= 0x1_0000_0000,
        ;
        assert(0 <= dz * dz <= 0x1_0000_0000_0000_0000) by (nonlinear_arith)
            requires
                -0x1_0000_0000 <= dz <= 0x1_0000_0000,
        ;
    }
    dx * dx + dz * dz < limit2
}

/// Whether `p` is closer than the square root of `limit2` to some point of
/// `points`.
pub fn near_any(points: &Vec<(i32, i32)>, p: (i32, i32), limit2: i128) -> (r: bool)
    ensures
        r == exists|i: int| 0 <= i < points@.len() && dist2(#[trigger] points@[i], p) < limit2,
{
    let mut i: usize = 0;
    while i < points.len()
        invariant
            i <= points.len(),
            forall|j: int| 0 <= j < i ==> dist2(#[trigger] points@[j], p) >= limit2,
        decreases points.len() - i,
    {
        if near(points[i], p, limit2) {
            return true;
        }
        i = i + 1;
    }
    false
}

/// The exit at world position `exit` can be walked to from the spawn at
/// world position `spawn`: both are centres of walkable tiles joined by a
/// walk.
pub open spec fn exit_reachable(m: &MazeData, spawn: (i32, i32), exit: (i32, i32)) -> bool {
    exists|sx: int, sy: int, ex: int, ey: int|
        #![trigger m.world_x(sx), m.world_z(sy), m.world_x(ex), m.world_z(ey)]
        {
            &&& spawn.0 == m.world_x(sx) && spawn.1 == m.world_z(sy)
            &&& exit.0 == m.world_x(ex) && exit.1 == m.world_z(ey)
            &&& m.is_open(sx, sy) && m.is_open(ex, ey)
            &&& reachable(m, (sx, sy), (ex, ey))
        }
}

/// In a maze whose walkable tiles form one region, an exit on a walkable
/// tile can be reached from a spawn on a walkable tile: nothing the floor
/// plan places cuts the way.
pub proof fn lemma_exit_reachable(m: &MazeData, spawn: (i32, i32), exit: (i32, i32))
    requires
        open_connected(m),
        is_walkable_center(m, spawn),
        is_walkable_center(m, exit),
    ensures
        exit_reachable(m, spawn, exit),
{
    let (sx, sy) = choose|x: int, y: int|
        #![trigger m.world_x(x), m.world_z(y)]
        m.interior(x, y) && m.is_open(x, y) && spawn.0 == m.world_x(x) && spawn.1 == m.world_z(y);
    let (ex, ey) = choose|x: int, y: int|
        #![trigger m.world_x(x), m.world_z(y)]
        m.interior(x, y) && m.is_open(x, y) && exit.0 == m.world_x(x) && exit.1 == m.world_z(y);
    assert(m.is_open(sx, sy) && m.is_open(ex, ey));
    assert(reachable(m, (sx, sy), (ex, ey)));
}

/// The spawn position found around tile `(tx0, ty0)`
/// (`lemma_spawn_world_unique`: there is only one).
pub open spec fn spawn_of(m: &MazeData, tx0: int, ty0: int) -> (i32, i32) {
    choose|p: (i32, i32)| #[trigger] spawn_world_choice(m, tx0, ty0, p)
}

/// `r` is the floor drawn from state `g`, leaving state `g_end`, for a floor
/// entered from the menu: spawn found around `prefer`, exit the first
/// farthest of 600 walkable draws, the door plan, then the floor's enemies
/// placed with 200 draws each, kept away from the spawn.
pub open spec fn first_floor_plan(
    m: &MazeData,
    prefer: (i32, i32),
    floor: u32,
    g: StdRng,
    r: FloorLayout,
    g_end: StdRng,
) -> bool {
    let spawn = spawn_of(m, prefer.0 as int, prefer.1 as int);
    let (samples, g1) = world_samples(m, g, 600);
    let exit = farthest_scan(samples, spawn).0;
    let count = enemy_count_spec(floor);
    &&& spawn_world_choice(m, prefer.0 as int, prefer.1 as int, spawn)
    &&& r.spawn_world == spawn
    &&& r.exit_world == exit
    &&& door_plan_is(m, spawn, exit, g1, r.door)
    &&& (r.enemies@, g_end) == placement(
        m,
        door_after(m, spawn, exit, g1),
        count,
        (count * 200) as nat,
        spawn,
        false,
        Seq::empty(),
    )
}

/// `r` is the floor drawn from state `g`, leaving state `g_end`, for a floor
/// reached through an exit: spawn found around the tile of the world
/// origin, exit the first farthest of 600 walkable draws, no door, then the
/// floor's enemies placed with 60 draws each (one draw skipped before each).
pub open spec fn next_floor_plan(m: &MazeData, floor: u32, g: StdRng, r: FloorLayout, g_end: StdRng) -> bool {
    let spawn = spawn_of(m, tile_of(m, (0i32, 0i32)).0, tile_of(m, (0i32, 0i32)).1);
    let (samples, g1) = world_samples(m, g, 600);
    let exit = farthest_scan(samples, spawn).0;
    let count = enemy_count_spec(floor);
    &&& spawn_world_choice(m, tile_of(m, (0i32, 0i32)).0, tile_of(m, (0i32, 0i32)).1, spawn)
    &&& r.spawn_world == spawn
    &&& r.exit_world == exit
    &&& r.door is None
    &&& (r.enemies@, g_end) == placement(m, g1, count, (count * 60) as nat, spawn, true, Seq::empty())
}

/// The layout of a floor entered from the menu is a function of the maze,
/// the preferred tile, the floor and the generator state: two layouts drawn
/// for them agree on spawn, exit, door, key, items and enemies, and leave
/// the same state.
pub proof fn lemma_first_floor_deterministic(
    m: &MazeData,
    prefer: (i32, i32),
    floor: u32,
    g: StdRng,
    r1: FloorLayout,
    e1: StdRng,
    r2: FloorLayout,
    e2: StdRng,
)
    requires
        first_floor_plan(m, prefer, floor, g, r1, e1),
        first_floor_plan(m, prefer, floor, g, r2, e2),
    ensures
        r1.spawn_world == r2.spawn_world,
        r1.exit_world == r2.exit_world,
        same_door(r1.door, r2.door),
        r1.enemies@ == r2.enemies@,
        e1 == e2,
{
}

/// The layout of a floor reached through an exit is a function of the maze,
/// the floor and the generator state.
pub proof fn lemma_next_floor_deterministic(
    m: &MazeData,
    floor: u32,
    g: StdRng,
    r1: FloorLayout,
    e1: StdRng,
    r2: FloorLayout,
    e2: StdRng,
)
    requires
        next_floor_plan(m, floor, g, r1, e1),
        next_floor_plan(m, floor, g, r2, e2),
    ensures
        r1.spawn_world == r2.spawn_world,
        r1.exit_world == r2.exit_world,
        same_door(r1.door, r2.door),
        r1.enemies@ == r2.enemies@,
        e1 == e2,
{
}

/// A generated floor maze has an interior walkable tile within every ring
/// search around a tile of its grid: the corner tile of its first room.
pub proof fn lemma_floor_maze_has_spawn(g: StdRng, m: &MazeData, e: StdRng, tx0: int, ty0: int, p: (i32, i32))
    requires
        m.wf(),
        floor_maze_drawn(g, m, e),
        m.in_bounds(tx0, ty0),
        spawn_world_choice(m, tx0, ty0, p),
    ensures
        is_walkable_center(m, p),
{
    let tw = (2 * MAZE_CELLS + 1) as u32;
    let draws = layout_draws(g, tw, tw);
    let (extra, g1) = gen_below(g, 0, 3);
    lemma_room_draws_len(g1, tw, tw, (6 + extra) as nat);
    lemma_first_room_kept(draws.0);
    let rooms = kept_rooms(draws.0);
    let rects = carve_list(rooms, draws.1, tw as int, tw as int);
    let c = rooms[0];
    assert(room_shape_ok(c, tw as int, tw as int));
    let x = c.0 as int;
    let y = c.1 as int;
    assert(rects[0] == c);
    assert(in_rect(rects[0], x, y));
    assert(m.tiles@[cell_index(tw as int, x, y)] == !exists|j: int|
        0 <= j < rects.len() && #[trigger] in_rect(rects[j], x, y));
    assert(m.interior(x, y) && m.is_open(x, y));
    assert(spawn_walkable(m, x, y));
    assert(ring_radius(x - tx0, y - ty0) <= spawn_search_radius());
    let r = choose|r: Option<(u32, u32)>|
        #![trigger is_spawn_choice(m, tx0, ty0, r)]
        is_spawn_choice(m, tx0, ty0, r) && match r {
            Some(t) => p.0 == m.world_x(t.0 as int) && p.1 == m.world_z(t.1 as int),
            None => p == (0i32, 0i32),
        };
    let t = r->0;
    assert(spawn_walkable(m, t.0 as int, t.1 as int));
    let _ = m.world_x(t.0 as int);
    let _ = m.world_z(t.1 as int);
}

/// No soft-lock on a generated floor reached through an exit: the spawn is
/// on a walkable tile, and so is every enemy kept, and an exit drawn on a
/// walkable tile can be walked to from the spawn.
pub proof fn lemma_next_floor_playable(
    g0: StdRng,
    m: &MazeData,
    g: StdRng,
    floor: u32,
    r: FloorLayout,
    e: StdRng,
)
    requires
        m.wf(),
        floor_maze_drawn(g0, m, g),
        next_floor_plan(m, floor, g, r, e),
    ensures
        is_walkable_center(m, r.spawn_world),
        is_walkable_center(m, r.exit_world) ==> exit_reachable(m, r.spawn_world, r.exit_world),
{
    let t = tile_of(m, (0i32, 0i32));
    assert(t.0 == 15 && t.1 == 15);
    lemma_floor_maze_has_spawn(g0, m, g, t.0, t.1, r.spawn_world);
    lemma_floor_maze_connected(g0, m, g);
    if is_walkable_center(m, r.exit_world) {
        lemma_exit_reachable(m, r.spawn_world, r.exit_world);
    }
}

/// No soft-lock on a generated floor entered from the menu with a preferred
/// spawn tile on the grid: the spawn is on a walkable tile, and an exit
/// drawn on a walkable tile can be walked to from it.
pub proof fn lemma_first_floor_playable(
    g0: StdRng,
    m: &MazeData,
    g: StdRng,
    prefer: (i32, i32),
    floor: u32,
    r: FloorLayout,
    e: StdRng,
)
    requires
        m.wf(),
        floor_maze_drawn(g0, m, g),
        m.in_bounds(prefer.0 as int, prefer.1 as int),
        first_floor_plan(m, prefer, floor, g, r, e),
    ensures
        is_walkable_center(m, r.spawn_world),
        is_walkable_center(m, r.exit_world) ==> exit_reachable(m, r.spawn_world, r.exit_world),
{
    lemma_floor_maze_has_spawn(g0, m, g, prefer.0 as int, prefer.1 as int, r.spawn_world);
    lemma_floor_maze_connected(g0, m, g);
    if is_walkable_center(m, r.exit_world) {
        lemma_exit_reachable(m, r.spawn_world, r.exit_world);
    }
}

/// The walkable tiles of a generated floor maze form one region.
proof fn lemma_floor_maze_connected(g: StdRng, m: &MazeData, e: StdRng)
    requires
        floor_maze_drawn(g, m, e),
    ensures
        open_connected(m),
{
    let tw = (2 * MAZE_CELLS + 1) as u32;
    let draws = layout_draws(g, tw, tw);
    let (extra, g1) = gen_below(g, 0, 3);
    lemma_room_draws_len(g1, tw, tw, (6 + extra) as nat);
    lemma_first_room_kept(draws.0);
    lemma_generated_layout_connected(m, kept_rooms(draws.0), draws.1);
}

/// Two door plans place the same door, key and items.
pub open spec fn same_door(a: Option<LockedDoorPlan>, b: Option<LockedDoorPlan>) -> bool {
    match (a, b) {
        (None, None) => true,
        (Some(p), Some(q)) => {
            &&& p.tile == q.tile
            &&& p.axis == q.axis
            &&& p.dist == q.dist
            &&& p.key_tile == q.key_tile
            &&& p.treasures@ == q.treasures@
        },
        _ => false,
    }
}

/// Layout of a floor entered from the menu: spawn nearest the preferred
/// tile, exit far from it, the locked door with its key and items, and the
/// floor's enemies kept away from the spawn.
pub fn plan_first_floor(m: MazeData, prefer_tile: (i32, i32), floor: u32, rng: &mut StdRng) -> (r:
    FloorLayout)
    requires
        m.wf(),
        m.tiles_w >= 3,
        m.tiles_h >= 3,
        i32::MIN + 120 <= prefer_tile.0 <= i32::MAX - 120,
        i32::MIN + 120 <= prefer_tile.1 <= i32::MAX - 120,
        floor <= u32::MAX / 2,
    ensures
        r.maze == m,
        spawn_world_choice(&m, prefer_tile.0 as int, prefer_tile.1 as int, r.spawn_world),
        is_walkable_center(&m, r.spawn_world) || r.spawn_world == (0i32, 0i32),
        exit_world_choice(&m, r.spawn_world, r.exit_world),
        is_walkable_center(&m, r.exit_world) || r.exit_world == fallback_world(),
        enemies_ok(&m, r.enemies@, enemy_count_spec(floor), r.spawn_world),
        first_floor_plan(&m, prefer_tile, floor, *old(rng), r, *final(rng)),
        open_connected(&m) && is_walkable_center(&m, r.spawn_world) && is_walkable_center(
            &m,
            r.exit_world,
        ) ==> exit_reachable(&m, r.spawn_world, r.exit_world),
{
    let spawn_world = m.pick_spawn_world(prefer_tile.0, prefer_tile.1);
    proof {
        lemma_spawn_world_unique(
            &m,
            prefer_tile.0 as int,
            prefer_tile.1 as int,
            spawn_world,
            spawn_of(&m, prefer_tile.0 as int, prefer_tile.1 as int),
        );
    }
    let exit_world = m.pick_exit_world(spawn_world, rng);
    let door = plan_locked_door(&m, spawn_world, exit_world, rng);
    let count = enemy_count(floor);
    let enemies = place_enemies(&m, count, spawn_world, 200, false, rng);
    proof {
        if open_connected(&m) && is_walkable_center(&m, spawn_world) && is_walkable_center(
            &m,
            exit_world,
        ) {
            lemma_exit_reachable(&m, spawn_world, exit_world);
        }
    }
    FloorLayout { maze: m, spawn_world, exit_world, door, enemies }
}

/// Layout of a floor reached through the exit of the previous one: spawn
/// nearest the tile of the world origin, exit far from it, no locked door,
/// and the floor's enemies kept away from the spawn.
pub fn plan_next_floor(m: MazeData, floor: u32, rng: &mut StdRng) -> (r: FloorLayout)
    requires
        m.wf(),
        m.tiles_w >= 3,
        m.tiles_h >= 3,
        floor <= u32::MAX / 2,
    ensures
        r.maze == m,
        spawn_world_choice(
            &m,
            round_div(0 - m.origin_x, m.tile_size as int),
            round_div(0 - m.origin_z, m.tile_size as int),
            r.spawn_world,
        ),
        is_walkable_center(&m, r.spawn_world) || r.spawn_world == (0i32, 0i32),
        exit_world_choice(&m, r.spawn_world, r.exit_world),
        is_walkable_center(&m, r.exit_world) || r.exit_world == fallback_world(),
        r.door is None,
        enemies_ok(&m, r.enemies@, enemy_count_spec(floor), r.spawn_world),
        next_floor_plan(&m, floor, *old(rng), r, *final(rng)),
        open_connected(&m) && is_walkable_center(&m, r.spawn_world) && is_walkable_center(
            &m,
            r.exit_world,
        ) ==> exit_reachable(&m, r.spawn_world, r.exit_world),
{
    let (tx, ty) = m.world_to_tile_coords(0, 0);
    proof {
        MazeData::lemma_round_div_magnitude(0 - m.origin_x, m.tile_size as int);
        MazeData::lemma_round_div_magnitude(0 - m.origin_z, m.tile_size as int);
    }
    let spawn_world = m.pick_spawn_world(tx as i32, ty as i32);
    proof {
        lemma_spawn_world_unique(
            &m,
            tx as int,
            ty as int,
            spawn_world,
            spawn_of(&m, tx as int, ty as int),
        );
    }
    let exit_world = m.pick_exit_world(spawn_world, rng);
    let count = enemy_count(floor);
    let enemies = place_enemies(&m, count, spawn_world, 60, true, rng);
    proof {
        if open_connected(&m) && is_walkable_center(&m, spawn_world) && is_walkable_center(
            &m,
            exit_world,
        ) {
            lemma_exit_reachable(&m, spawn_world, exit_world);
        }
    }
    FloorLayout { maze: m, spawn_world, exit_world, door: None, enemies }
}

} // verus!
