use vstd::prelude::*;
use rand::rngs::StdRng;
use crate::maze::{
    cell_index, lemma_seq_eq_by_cells, lemma_cell_index_bounds, lemma_cell_index_injective, lemma_rect_reach, lemma_reach_sym,
    lemma_reach_trans, open_connected, reachable, rect_open, MazeData, WORLD_LIMIT,
};
use crate::rng::{draw_below, draw_coin, gen_below, gen_coin};

verus! {

/// Inclusive tile rectangle `(x0, y0, x1, y1)`.
pub type TileRect = (u32, u32, u32, u32);

pub open spec fn in_rect(r: TileRect, x: int, y: int) -> bool {
    r.0 <= x <= r.2 && r.1 <= y <= r.3
}

/// Room `c` comes within one tile of room `a` (touching or overlapping).
pub open spec fn rooms_overlap(a: TileRect, c: TileRect) -> bool {
    !(c.2 + 1 < a.0 || a.2 + 1 < c.0 || c.3 + 1 < a.1 || a.3 + 1 < c.1)
}

pub open spec fn min_int(a: int, b: int) -> int {
    if a <= b {
        a
    } else {
        b
    }
}

pub open spec fn max_int(a: int, b: int) -> int {
    if a >= b {
        a
    } else {
        b
    }
}

pub open spec fn center_x(r: TileRect) -> int {
    (r.0 + r.2) / 2
}

pub open spec fn center_y(r: TileRect) -> int {
    (r.1 + r.3) / 2
}

/// The two straight segments of the L-shaped corridor from the centre of
/// room `a` to the centre of room `b`: horizontal first along `a`'s centre
/// row, or vertical first along `a`'s centre column.
pub open spec fn corridor_pair(a: TileRect, b: TileRect, horizontal_first: bool) -> (TileRect, TileRect) {
    let ax = center_x(a);
    let ay = center_y(a);
    let bx = center_x(b);
    let by = center_y(b);
    if horizontal_first {
        (
            (min_int(ax, bx) as u32, ay as u32, max_int(ax, bx) as u32, ay as u32),
            (bx as u32, min_int(ay, by) as u32, bx as u32, max_int(ay, by) as u32),
        )
    } else {
        (
            (ax as u32, min_int(ay, by) as u32, ax as u32, max_int(ay, by) as u32),
            (min_int(ax, bx) as u32, by as u32, max_int(ax, bx) as u32, by as u32),
        )
    }
}

/// The corridor segments joining consecutive rooms, two per pair.
pub open spec fn corridor_list(rooms: Seq<TileRect>, choices: Seq<bool>) -> Seq<TileRect> {
    Seq::new(
        (2 * (rooms.len() - 1)) as nat,
        |k: int|
            {
                let i = k / 2 + 1;
                let pr = corridor_pair(rooms[i - 1], rooms[i], choices[i - 1]);
                if k % 2 == 0 {
                    pr.0
                } else {
                    pr.1
                }
            },
    )
}

/// Every rectangle carved into a `tw` by `th` grid: the rooms and their
/// corridors, or, with fewer than two rooms, the rooms and one big room
/// `(3, 3, tw - 4, th - 4)`.
pub open spec fn carve_list(rooms: Seq<TileRect>, choices: Seq<bool>, tw: int, th: int) -> Seq<
    TileRect,
> {
    if rooms.len() < 2 {
        rooms.push((3u32, 3u32, (tw - 4) as u32, (th - 4) as u32))
    } else {
        rooms + corridor_list(rooms, choices)
    }
}

/// `tiles` is a `tw` by `th` grid whose open tiles are exactly those in some
/// rectangle of `rects`.
pub open spec fn carved_tiles(tw: int, th: int, rects: Seq<TileRect>, tiles: Seq<bool>) -> bool {
    &&& tiles.len() == tw * th
    &&& forall|x: int, y: int|
        #![trigger tiles[cell_index(tw, x, y)]]
        0 <= x < tw && 0 <= y < th ==> (tiles[cell_index(tw, x, y)] == !exists|j: int|
            0 <= j < rects.len() && #[trigger] in_rect(rects[j], x, y))
}

/// A room as drawn for a `tw` by `th` grid: odd left and top edges, width
/// and height (in tiles, minus one) of 7, 9 or 11, inside the grid.
pub open spec fn room_shape_ok(r: TileRect, tw: int, th: int) -> bool {
    &&& 1 <= r.0 && r.0 % 2 == 1
    &&& 1 <= r.1 && r.1 % 2 == 1
    &&& (r.2 - r.0 == 7 || r.2 - r.0 == 9 || r.2 - r.0 == 11)
    &&& (r.3 - r.1 == 7 || r.3 - r.1 == 9 || r.3 - r.1 == 11)
    &&& r.2 <= tw - 1
    &&& r.3 <= th - 1
}

/// The rooms kept by the generator: well shaped, at most eight, and no
/// room within one tile of an earlier one.
pub open spec fn rooms_ok(rooms: Seq<TileRect>, tw: int, th: int) -> bool {
    &&& rooms.len() <= 8
    &&& forall|i: int| 0 <= i < rooms.len() ==> room_shape_ok(#[trigger] rooms[i], tw, th)
    &&& forall|i: int, j: int|
        0 <= i < j < rooms.len() ==> !rooms_overlap(#[trigger] rooms[i], #[trigger] rooms[j])
}

/// Tiles `(px, py)` and `(qx, qy)` are at least two apart on one axis, so
/// that they neither coincide nor touch, even diagonally.
pub open spec fn tiles_apart(px: int, py: int, qx: int, qy: int) -> bool {
    px - qx >= 2 || qx - px >= 2 || py - qy >= 2 || qy - py >= 2
}

/// Room `c` comes within one tile of room `a` exactly when some tile of
/// `a` and some tile of `c` coincide or touch (side or corner), on either
/// axis alike: rooms kept apart have a wall row or column between them.
pub proof fn lemma_overlap_means_touching_tiles(a: TileRect, c: TileRect)
    requires
        a.0 <= a.2,
        a.1 <= a.3,
        c.0 <= c.2,
        c.1 <= c.3,
    ensures
        !rooms_overlap(a, c) <==> forall|px: int, py: int, qx: int, qy: int|
            #![trigger in_rect(a, px, py), in_rect(c, qx, qy)]
            in_rect(a, px, py) && in_rect(c, qx, qy) ==> tiles_apart(px, py, qx, qy),
{
    if rooms_overlap(a, c) {
        let (px, qx) = if a.0 >= c.0 {
            (a.0 as int, min_int(c.2 as int, a.0 as int))
        } else {
            (min_int(a.2 as int, c.0 as int), c.0 as int)
        };
        let (py, qy) = if a.1 >= c.1 {
            (a.1 as int, min_int(c.3 as int, a.1 as int))
        } else {
            (min_int(a.3 as int, c.1 as int), c.1 as int)
        };
        assert(in_rect(a, px, py) && in_rect(c, qx, qy) && !tiles_apart(px, py, qx, qy));
    }
}

/// Two rooms of a generated layout never touch: between any tile of one and
/// any tile of the other lies at least one tile on some axis.
pub proof fn lemma_generated_rooms_apart(
    tw: int,
    th: int,
    rooms: Seq<TileRect>,
    choices: Seq<bool>,
    tiles: Seq<bool>,
    i: int,
    j: int,
    px: int,
    py: int,
    qx: int,
    qy: int,
)
    requires
        generated_layout(tw, th, rooms, choices, tiles),
        0 <= i < rooms.len(),
        0 <= j < rooms.len(),
        i != j,
        in_rect(rooms[i], px, py),
        in_rect(rooms[j], qx, qy),
    ensures
        tiles_apart(px, py, qx, qy),
{
    let a = rooms[i];
    let c = rooms[j];
    assert(room_shape_ok(a, tw, th) && room_shape_ok(c, tw, th));
    if i < j {
        assert(!rooms_overlap(rooms[i], rooms[j]));
        lemma_overlap_means_touching_tiles(a, c);
    } else {
        assert(!rooms_overlap(rooms[j], rooms[i]));
        lemma_overlap_means_touching_tiles(c, a);
    }
}

/// The layout drawn by the generator for a `tw` by `th` grid, given its
/// rooms and corridor orientations.
pub open spec fn generated_layout(
    tw: int,
    th: int,
    rooms: Seq<TileRect>,
    choices: Seq<bool>,
    tiles: Seq<bool>,
) -> bool {
    &&& rooms_ok(rooms, tw, th)
    &&& (rooms.len() >= 2 ==> choices.len() == rooms.len() - 1)
    &&& carved_tiles(tw, th, carve_list(rooms, choices, tw, th), tiles)
}

/// A layout is fixed by its rooms and corridor orientations: two tile grids
/// that both meet `generated_layout` for them are equal.
pub proof fn lemma_generated_layout_unique(
    tw: int,
    th: int,
    rooms: Seq<TileRect>,
    choices: Seq<bool>,
    t1: Seq<bool>,
    t2: Seq<bool>,
)
    requires
        1 <= tw,
        generated_layout(tw, th, rooms, choices, t1),
        generated_layout(tw, th, rooms, choices, t2),
    ensures
        t1 == t2,
{
    assert forall|x: int, y: int| 0 <= x < tw && 0 <= y < th implies #[trigger] t1[cell_index(tw, x, y)]
        == t2[cell_index(tw, x, y)] by {
        let _ = t2[cell_index(tw, x, y)];
    }
    lemma_seq_eq_by_cells(tw, th, t1, t2);
}

/// The rooms kept from the candidate rooms `cands`, taken in turn: a
/// candidate is kept unless it comes within one tile of a room kept before
/// it.
pub open spec fn kept_rooms(cands: Seq<TileRect>) -> Seq<TileRect>
    decreases cands.len(),
{
    if cands.len() == 0 {
        Seq::empty()
    } else {
        let prev = kept_rooms(cands.drop_last());
        let c = cands.last();
        if exists|i: int| 0 <= i < prev.len() && rooms_overlap(#[trigger] prev[i], c) {
            prev
        } else {
            prev.push(c)
        }
    }
}

/// The first candidate room is always kept.
pub proof fn lemma_first_room_kept(cands: Seq<TileRect>)
    requires
        cands.len() >= 1,
    ensures
        kept_rooms(cands).len() >= 1,
        kept_rooms(cands)[0] == cands[0],
    decreases cands.len(),
{
    if cands.len() > 1 {
        lemma_first_room_kept(cands.drop_last());
        assert(cands.drop_last()[0] == cands[0]);
        let prev = kept_rooms(cands.drop_last());
        assert(prev.push(cands.last())[0] == prev[0]);
    } else {
        let prev = kept_rooms(cands.drop_last());
        assert(prev.len() == 0);
        assert(!exists|i: int| 0 <= i < prev.len() && rooms_overlap(#[trigger] prev[i], cands.last()));
        assert(kept_rooms(cands) == prev.push(cands.last()));
        assert(prev.push(cands.last())[0] == cands.last());
    }
}

/// Whether candidate room `c` comes within one tile of any room in `rooms`.
pub fn overlaps_any(rooms: &Vec<TileRect>, c: TileRect) -> (r: bool)
    requires
        c.2 < u32::MAX,
        c.3 < u32::MAX,
        forall|i: int|
            0 <= i < rooms@.len() ==> (#[trigger] rooms@[i]).2 < u32::MAX && rooms@[i].3 < u32::MAX,
    ensures
        r == exists|i: int| 0 <= i < rooms@.len() && rooms_overlap(#[trigger] rooms@[i], c),
{
    let mut i: usize = 0;
    while i < rooms.len()
        invariant
            i <= rooms.len(),
            c.2 < u32::MAX,
            c.3 < u32::MAX,
            forall|i: int|
                0 <= i < rooms@.len() ==> (#[trigger] rooms@[i]).2 < u32::MAX && rooms@[i].3
                    < u32::MAX,
            forall|j: int| 0 <= j < i ==> !rooms_overlap(#[trigger] rooms@[j], c),
        decreases rooms.len() - i,
    {
        let a = rooms[i];
        if !(c.2 + 1 < a.0 || a.2 + 1 < c.0 || c.3 + 1 < a.1 || a.3 + 1 < c.1) {
            assert(rooms_overlap(rooms@[i as int], c));
            return true;
        }
        i = i + 1;
    }
    false
}

/// Opens every tile of rectangle `r` in a grid `tw` tiles wide.
fn carve_rect(tiles: &mut Vec<bool>, tw: u32, th: u32, r: TileRect)
    requires
        old(tiles)@.len() == tw * th,
        tw * th <= u32::MAX,
        r.2 < tw,
        r.3 < th,
    ensures
        final(tiles)@.len() == tw * th,
        forall|x: int, y: int|
            #![trigger final(tiles)@[cell_index(tw as int, x, y)]]
            0 <= x < tw && 0 <= y < th ==> final(tiles)@[cell_index(tw as int, x, y)] == (old(
                tiles,
            )@[cell_index(tw as int, x, y)] && !in_rect(r, x, y)),
{
    let ghost t0 = tiles@;
    let mut y = r.1;
    while y <= r.3
        invariant
            tiles@.len() == tw * th,
            tw * th <= u32::MAX,
            r.2 < tw,
            r.3 < th,
            r.1 <= y <= r.3 + 1 || y == r.1,
            forall|x: int, yy: int|
                #![trigger tiles@[cell_index(tw as int, x, yy)]]
                0 <= x < tw && 0 <= yy < th ==> tiles@[cell_index(tw as int, x, yy)] == (t0[cell_index(
                    tw as int,
                    x,
                    yy,
                )] && !(in_rect(r, x, yy) && yy < y)),
        decreases r.3 + 1 - y,
    {
        let mut x = r.0;
        while x <= r.2
            invariant
                tiles@.len() == tw * th,
                tw * th <= u32::MAX,
                r.2 < tw,
                r.3 < th,
                r.1 <= y <= r.3,
                r.0 <= x <= r.2 + 1 || x == r.0,
                forall|xx: int, yy: int|
                    #![trigger tiles@[cell_index(tw as int, xx, yy)]]
                    0 <= xx < tw && 0 <= yy < th ==> tiles@[cell_index(tw as int, xx, yy)] == (
                    t0[cell_index(tw as int, xx, yy)] && !(in_rect(r, xx, yy) && (yy < y || (yy
                        == y && xx < x)))),
            decreases r.2 + 1 - x,
        {
            proof {
                lemma_cell_index_bounds(tw as int, th as int, x as int, y as int);
            }
            let i = (y * tw + x) as usize;
            let ghost before = tiles@;
            tiles.set(i, false);
            proof {
                assert forall|xx: int, yy: int|
                    #![trigger tiles@[cell_index(tw as int, xx, yy)]]
                    0 <= xx < tw && 0 <= yy < th implies tiles@[cell_index(tw as int, xx, yy)] == (
                    t0[cell_index(tw as int, xx, yy)] && !(in_rect(r, xx, yy) && (yy < y || (yy
                        == y && xx < x + 1)))) by {
                    lemma_cell_index_bounds(tw as int, th as int, xx, yy);
                    if cell_index(tw as int, xx, yy) == i {
                        lemma_cell_index_injective(tw as int, xx, yy, x as int, y as int);
                    } else {
                        assert(tiles@[cell_index(tw as int, xx, yy)] == before[cell_index(
                            tw as int,
                            xx,
                            yy,
                        )]);
                    }
                }
            }
            x = x + 1;
        }
        y = y + 1;
    }
}

/// A `tw` by `th` grid (`true` = wall) whose open tiles are exactly those
/// inside some rectangle of `rects`.
pub fn carve_all(tw: u32, th: u32, rects: &Vec<TileRect>) -> (tiles: Vec<bool>)
    requires
        tw * th <= u32::MAX,
        forall|j: int| 0 <= j < rects@.len() ==> (#[trigger] rects@[j]).2 < tw && rects@[j].3 < th,
    ensures
        carved_tiles(tw as int, th as int, rects@, tiles@),
{
    let n = (tw * th) as usize;
    let mut tiles: Vec<bool> = Vec::new();
    let mut i: usize = 0;
    while i < n
        invariant
            i <= n,
            tiles@.len() == i,
            forall|j: int| 0 <= j < i ==> tiles@[j] == true,
        decreases n - i,
    {
        tiles.push(true);
        i = i + 1;
    }
    proof {
        assert forall|x: int, y: int|
            #![trigger tiles@[cell_index(tw as int, x, y)]]
            0 <= x < tw && 0 <= y < th implies tiles@[cell_index(tw as int, x, y)] == true by {
            lemma_cell_index_bounds(tw as int, th as int, x, y);
        }
    }
    let mut k: usize = 0;
    while k < rects.len()
        invariant
            tw * th <= u32::MAX,
            n == tw * th,
            forall|j: int| 0 <= j < rects@.len() ==> (#[trigger] rects@[j]).2 < tw && rects@[j].3 < th,
            k <= rects.len(),
            carved_tiles(tw as int, th as int, rects@.subrange(0, k as int), tiles@),
        decreases rects.len() - k,
    {
        let ghost before = tiles@;
        let r = rects[k];
        carve_rect(&mut tiles, tw, th, r);
        proof {
            let s0 = rects@.subrange(0, k as int);
            let s1 = rects@.subrange(0, k + 1);
            assert forall|x: int, y: int|
                #![trigger tiles@[cell_index(tw as int, x, y)]]
                0 <= x < tw && 0 <= y < th implies (tiles@[cell_index(tw as int, x, y)] == !exists|
                j: int,
            | 0 <= j < s1.len() && #[trigger] in_rect(s1[j], x, y)) by {
                assert(before[cell_index(tw as int, x, y)] == !exists|j: int|
                    0 <= j < s0.len() && #[trigger] in_rect(s0[j], x, y));
                if in_rect(r, x, y) {
                    assert(in_rect(s1[k as int], x, y));
                } else {
                    if exists|j: int| 0 <= j < s1.len() && #[trigger] in_rect(s1[j], x, y) {
                        let j = choose|j: int| 0 <= j < s1.len() && #[trigger] in_rect(s1[j], x, y);
                        assert(s0[j] == s1[j]);
                    }
                    if exists|j: int| 0 <= j < s0.len() && #[trigger] in_rect(s0[j], x, y) {
                        let j = choose|j: int| 0 <= j < s0.len() && #[trigger] in_rect(s0[j], x, y);
                        assert(s0[j] == s1[j]);
                    }
                }
            }
        }
        k = k + 1;
    }
    proof {
        assert(rects@.subrange(0, rects@.len() as int) =~= rects@);
    }
    tiles
}


/// The candidate room drawn from state `g` for a `tw` by `th` grid, and the
/// next state: a width and a height of `2 * k + 1` tiles for `k` in `3..6`,
/// then a left edge in `1..tw - width - 1` and a top edge in
/// `1..th - height - 1`, each moved one tile on when even.
pub open spec fn room_draw(g: StdRng, tw: u32, th: u32) -> (TileRect, StdRng) {
    let (a, g1) = gen_below(g, 3, 6);
    let (b, g2) = gen_below(g1, 3, 6);
    let rw = a * 2 + 1;
    let rh = b * 2 + 1;
    let (x, g3) = gen_below(g2, 1, (tw - rw - 1) as u32);
    let (y, g4) = gen_below(g3, 1, (th - rh - 1) as u32);
    let x0 = if x % 2 == 0 {
        x + 1
    } else {
        x as int
    };
    let y0 = if y % 2 == 0 {
        y + 1
    } else {
        y as int
    };
    ((x0 as u32, y0 as u32, (x0 + rw) as u32, (y0 + rh) as u32), g4)
}

/// The first `n` candidate rooms drawn from state `g`, in order, and the
/// state after them.
pub open spec fn room_draws(g: StdRng, tw: u32, th: u32, n: nat) -> (Seq<TileRect>, StdRng)
    decreases n,
{
    if n == 0 {
        (Seq::empty(), g)
    } else {
        let (prev, g1) = room_draws(g, tw, th, (n - 1) as nat);
        let (c, g2) = room_draw(g1, tw, th);
        (prev.push(c), g2)
    }
}

/// `n` candidate rooms are drawn.
pub proof fn lemma_room_draws_len(g: StdRng, tw: u32, th: u32, n: nat)
    ensures
        room_draws(g, tw, th, n).0.len() == n,
    decreases n,
{
    if n > 0 {
        lemma_room_draws_len(g, tw, th, (n - 1) as nat);
    }
}

/// The first `n` corridor orientations (fair coins) drawn from state `g`,
/// in order, and the state after them.
pub open spec fn coin_draws(g: StdRng, n: nat) -> (Seq<bool>, StdRng)
    decreases n,
{
    if n == 0 {
        (Seq::empty(), g)
    } else {
        let (prev, g1) = coin_draws(g, (n - 1) as nat);
        let (c, g2) = gen_coin(g1);
        (prev.push(c), g2)
    }
}

/// Candidate rooms, corridor orientations and final state of the generator
/// run from state `g` on a `tw` by `th` grid: a count of six to eight
/// candidates, the candidates, then one orientation per pair of kept rooms
/// when at least two are kept.
pub open spec fn layout_draws(g: StdRng, tw: u32, th: u32) -> (Seq<TileRect>, Seq<bool>, StdRng) {
    let (extra, g1) = gen_below(g, 0, 3);
    let (cands, g2) = room_draws(g1, tw, th, (6 + extra) as nat);
    let rooms = kept_rooms(cands);
    if rooms.len() < 2 {
        (cands, Seq::empty(), g2)
    } else {
        let (choices, g3) = coin_draws(g2, (rooms.len() - 1) as nat);
        (cands, choices, g3)
    }
}

/// Rooms-and-corridors layout on a grid of `2 * w_cells + 1` by
/// `2 * h_cells + 1` tiles (`true` = wall). Six to eight rooms are drawn at
/// random; a room within one tile of an earlier one is dropped. With at least
/// two rooms, each room is joined to the next by an L-shaped corridor between
/// their centres; otherwise one big room is carved as well. The walkable
/// tiles of the result form one region.
pub fn generate_rooms_and_corridors_tiles(w_cells: u32, h_cells: u32, rng: &mut StdRng) -> (r: (
    u32,
    u32,
    Vec<bool>,
))
    requires
        7 <= w_cells,
        7 <= h_cells,
        (2 * w_cells + 1) * (2 * h_cells + 1) <= u32::MAX,
    ensures
        r.0 == 2 * w_cells + 1,
        r.1 == 2 * h_cells + 1,
        exists|cands: Seq<TileRect>, choices: Seq<bool>|
            {
                &&& 6 <= cands.len() <= 8
                &&& forall|i: int|
                    0 <= i < cands.len() ==> room_shape_ok(#[trigger] cands[i], r.0 as int, r.1 as int)
                &&& #[trigger] generated_layout(r.0 as int, r.1 as int, kept_rooms(cands), choices, r.2@)
            },
        forall|m: MazeData|
            m.tiles_w == r.0 && m.tiles_h == r.1 && m.tiles@ == r.2@ ==> #[trigger] open_connected(&m),
        generated_layout(
            r.0 as int,
            r.1 as int,
            kept_rooms(layout_draws(*old(rng), r.0, r.1).0),
            layout_draws(*old(rng), r.0, r.1).1,
            r.2@,
        ),
        *final(rng) == layout_draws(*old(rng), r.0, r.1).2,
{
    proof {
        assert(w_cells * 2 + 1 <= (2 * w_cells + 1) * (2 * h_cells + 1)) by (nonlinear_arith)
            requires
                7 <= w_cells,
                7 <= h_cells,
        ;
        assert(h_cells * 2 + 1 <= (2 * w_cells + 1) * (2 * h_cells + 1)) by (nonlinear_arith)
            requires
                7 <= w_cells,
                7 <= h_cells,
        ;
    }
    let tw = w_cells * 2 + 1;
    let th = h_cells * 2 + 1;
    assert(tw <= 0x1111_1111 && th <= 0x1111_1111) by (nonlinear_arith)
        requires
            15 <= tw,
            15 <= th,
            tw * th <= u32::MAX,
    ;
    let mut rooms: Vec<TileRect> = Vec::new();
    let ghost g0 = *rng;
    let room_count = 6 + draw_below(rng, 0, 3);
    let ghost g1 = *rng;
    proof {
        assert(((room_count - 6) as u32, g1) == gen_below(g0, 0, 3));
    }
    let mut k: u32 = 0;
    let ghost mut cands: Seq<TileRect> = Seq::empty();
    while k < room_count
        invariant
            (cands, *rng) == room_draws(g1, tw, th, k as nat),
            cands.len() == k,
            rooms@ == kept_rooms(cands),
            forall|i: int| 0 <= i < cands.len() ==> room_shape_ok(#[trigger] cands[i], tw as int, th as int),
            6 <= room_count,
            tw == 2 * w_cells + 1,
            th == 2 * h_cells + 1,
            15 <= tw,
            15 <= th,
            tw * th <= u32::MAX,
            room_count <= 8,
            k <= room_count,
            rooms@.len() <= k,
            rooms_ok(rooms@, tw as int, th as int),
        decreases room_count - k,
    {
        let ghost g_room = *rng;
        let rw = draw_below(rng, 3, 6) * 2 + 1;
        let rh = draw_below(rng, 3, 6) * 2 + 1;
        let x0 = draw_below(rng, 1, tw - rw - 1);
        let y0 = draw_below(rng, 1, th - rh - 1);
        let x0 = if x0 % 2 == 0 {
            x0 + 1
        } else {
            x0
        };
        let y0 = if y0 % 2 == 0 {
            y0 + 1
        } else {
            y0
        };
        let x1 = x0 + rw;
        let y1 = y0 + rh;
        k = k + 1;
        let c: TileRect = (x0, y0, x1, y1);
        assert(room_shape_ok(c, tw as int, th as int));
        assert((c, *rng) == room_draw(g_room, tw, th));
        let ghost prev_cands = cands;
        proof {
            cands = cands.push(c);
            assert(cands.drop_last() =~= prev_cands);
            assert forall|i: int| 0 <= i < cands.len() implies room_shape_ok(
                #[trigger] cands[i],
                tw as int,
                th as int,
            ) by {
                if i < prev_cands.len() {
                    assert(cands[i] == prev_cands[i]);
                }
            }
        }
        if overlaps_any(&rooms, c) {
            continue;
        }
        let ghost before = rooms@;
        rooms.push(c);
        proof {
            assert forall|i: int, j: int|
                0 <= i < j < rooms@.len() implies !rooms_overlap(
                #[trigger] rooms@[i],
                #[trigger] rooms@[j],
            ) by {
                if j < before.len() {
                    assert(before[i] == rooms@[i] && before[j] == rooms@[j]);
                } else {
                    assert(before[i] == rooms@[i]);
                }
            }
            assert forall|i: int| 0 <= i < rooms@.len() implies room_shape_ok(
                #[trigger] rooms@[i],
                tw as int,
                th as int,
            ) by {
                if i < before.len() {
                    assert(before[i] == rooms@[i]);
                }
            }
        }
    }
    let ghost g2 = *rng;
    proof {
        assert(cands.len() == 6 + (room_count - 6));
        assert((cands, g2) == room_draws(g1, tw, th, (6 + (room_count - 6)) as nat));
    }
    let n = rooms.len();
    let mut rects: Vec<TileRect> = Vec::new();
    let mut i: usize = 0;
    while i < n
        invariant
            *rng == g2,
            n == rooms@.len(),
            i <= n,
            rects@ == rooms@.subrange(0, i as int),
        decreases n - i,
    {
        rects.push(rooms[i]);
        proof {
            assert(rects@ =~= rooms@.subrange(0, i + 1));
        }
        i = i + 1;
    }
    let mut choices: Vec<bool> = Vec::new();
    if n < 2 {
        rects.push((3, 3, tw - 4, th - 4));
        proof {
            assert(rects@ =~= carve_list(rooms@, choices@, tw as int, th as int));
        }
    } else {
        let mut i: usize = 1;
        while i < n
            invariant
                (choices@, *rng) == coin_draws(g2, (i - 1) as nat),
                n == rooms@.len(),
                2 <= n <= 8,
                1 <= i <= n,
                choices@.len() == i - 1,
                rects@.len() == n + 2 * (i - 1),
                forall|j: int| 0 <= j < n ==> rects@[j] == rooms@[j],
                forall|kk: int|
                    0 <= kk < 2 * (i - 1) ==> #[trigger] rects@[n + kk] == ({
                        let ii = kk / 2 + 1;
                        let pr = corridor_pair(rooms@[ii - 1], rooms@[ii], choices@[ii - 1]);
                        if kk % 2 == 0 {
                            pr.0
                        } else {
                            pr.1
                        }
                    }),
                rooms_ok(rooms@, tw as int, th as int),
                tw == 2 * w_cells + 1,
                th == 2 * h_cells + 1,
                15 <= tw <= 0x1111_1111,
                15 <= th <= 0x1111_1111,
                tw * th <= u32::MAX,
            decreases n - i,
        {
            proof {
                assert(room_shape_ok(rooms@[i - 1], tw as int, th as int));
                assert(room_shape_ok(rooms@[i as int], tw as int, th as int));
            }
            let a = rooms[i - 1];
            let b = rooms[i];
            let ghost g_coin = *rng;
            let horizontal_first = draw_coin(rng);
            let ax = (a.0 + a.2) / 2;
            let ay = (a.1 + a.3) / 2;
            let bx = (b.0 + b.2) / 2;
            let by = (b.1 + b.3) / 2;
            let lo_x = if ax <= bx {
                ax
            } else {
                bx
            };
            let hi_x = if ax >= bx {
                ax
            } else {
                bx
            };
            let lo_y = if ay <= by {
                ay
            } else {
                by
            };
            let hi_y = if ay >= by {
                ay
            } else {
                by
            };
            let ghost r_before = rects@;
            let ghost c_before = choices@;
            if horizontal_first {
                rects.push((lo_x, ay, hi_x, ay));
                rects.push((bx, lo_y, bx, hi_y));
            } else {
                rects.push((ax, lo_y, ax, hi_y));
                rects.push((lo_x, by, hi_x, by));
            }
            choices.push(horizontal_first);
            proof {
                let pr = corridor_pair(rooms@[i - 1], rooms@[i as int], horizontal_first);
                assert(rects@[n + 2 * (i - 1)] == pr.0);
                assert(rects@[n + 2 * (i - 1) + 1] == pr.1);
                assert forall|kk: int| 0 <= kk < 2 * i implies #[trigger] rects@[n + kk] == ({
                    let ii = kk / 2 + 1;
                    let pr = corridor_pair(rooms@[ii - 1], rooms@[ii], choices@[ii - 1]);
                    if kk % 2 == 0 {
                        pr.0
                    } else {
                        pr.1
                    }
                }) by {
                    if kk < 2 * (i - 1) {
                        assert(rects@[n + kk] == r_before[n + kk]);
                        assert(choices@[kk / 2] == c_before[kk / 2]);
                    } else {
                        assert(kk / 2 + 1 == i);
                    }
                }
            }
            i = i + 1;
        }
        proof {
            let cl = corridor_list(rooms@, choices@);
            assert forall|j: int| 0 <= j < rects@.len() implies #[trigger] rects@[j] == (rooms@
                + cl)[j] by {
                if j >= n {
                    let kk = j - n;
                    assert(rects@[n + kk] == cl[kk]);
                }
            }
            assert(rects@ =~= carve_list(rooms@, choices@, tw as int, th as int));
        }
    }
    proof {
        assert forall|j: int| 0 <= j < rects@.len() implies (#[trigger] rects@[j]).2 < tw
            && rects@[j].3 < th by {
            if j < n {
                assert(room_shape_ok(rooms@[j], tw as int, th as int));
            } else if n >= 2 {
                let kk = j - n;
                let ii = kk / 2 + 1;
                assert(room_shape_ok(rooms@[ii - 1], tw as int, th as int));
                assert(room_shape_ok(rooms@[ii], tw as int, th as int));
            }
        }
    }
    let tiles = carve_all(tw, th, &rects);
    let r = (tw, th, tiles);
    proof {
        assert(layout_draws(g0, tw, th).0 == cands);
    }
    assert(generated_layout(r.0 as int, r.1 as int, kept_rooms(cands), choices@, r.2@));
    proof {
        lemma_first_room_kept(cands);
        assert forall|m: MazeData|
            m.tiles_w == r.0 && m.tiles_h == r.1 && m.tiles@ == r.2@ implies #[trigger] open_connected(
            &m,
        ) by {
            lemma_generated_layout_connected(&m, kept_rooms(cands), choices@);
        }
    }
    r
}


/// Centre tile of room `r`.
pub open spec fn room_center(r: TileRect) -> (int, int) {
    (center_x(r), center_y(r))
}

/// Every rectangle of the carve list lies inside the `tw` by `th` grid.
proof fn lemma_carve_list_in_grid(rooms: Seq<TileRect>, choices: Seq<bool>, tw: int, th: int, j: int)
    requires
        rooms_ok(rooms, tw, th),
        rooms.len() >= 1,
        rooms.len() >= 2 ==> choices.len() == rooms.len() - 1,
        tw <= u32::MAX,
        th <= u32::MAX,
        0 <= j < carve_list(rooms, choices, tw, th).len(),
    ensures
        ({
            let r = carve_list(rooms, choices, tw, th)[j];
            r.0 <= r.2 < tw && r.1 <= r.3 < th
        }),
{
    let n = rooms.len() as int;
    let rects = carve_list(rooms, choices, tw, th);
    assert(room_shape_ok(rooms[0], tw, th));
    if j < n {
        assert(rects[j] == rooms[j]);
        assert(room_shape_ok(rooms[j], tw, th));
    } else if n >= 2 {
        let k = j - n;
        let i = k / 2 + 1;
        let a = rooms[i - 1];
        let b = rooms[i];
        assert(room_shape_ok(a, tw, th));
        assert(room_shape_ok(b, tw, th));
        let cl = corridor_list(rooms, choices);
        assert(rects[j] == cl[k]);
        assert(a.0 <= center_x(a) <= a.2 && a.1 <= center_y(a) <= a.3);
        assert(b.0 <= center_x(b) <= b.2 && b.1 <= center_y(b) <= b.3);
    } else {
        assert(rects[j] == (3u32, 3u32, (tw - 4) as u32, (th - 4) as u32));
    }
}

/// Every rectangle of the carve list is walkable in a maze laid out by it.
proof fn lemma_carved_rect_open(m: &MazeData, rooms: Seq<TileRect>, choices: Seq<bool>, j: int)
    requires
        generated_layout(m.w(), m.h(), rooms, choices, m.tiles@),
        rooms.len() >= 1,
        0 <= j < carve_list(rooms, choices, m.w(), m.h()).len(),
    ensures
        ({
            let r = carve_list(rooms, choices, m.w(), m.h())[j];
            rect_open(m, r.0 as int, r.1 as int, r.2 as int, r.3 as int)
        }),
{
    let rects = carve_list(rooms, choices, m.w(), m.h());
    let r = rects[j];
    lemma_carve_list_in_grid(rooms, choices, m.w(), m.h(), j);
    assert forall|x: int, y: int|
        r.0 <= x <= r.2 && r.1 <= y <= r.3 implies #[trigger] m.is_open(x, y) by {
        assert(in_rect(rects[j], x, y));
        assert(m.tiles@[cell_index(m.w(), x, y)] == !exists|jj: int|
            0 <= jj < rects.len() && #[trigger] in_rect(rects[jj], x, y));
    }
}

/// Consecutive room centres are joined through their corridor, so every
/// room centre is reached from the first.
proof fn lemma_centers_reached(m: &MazeData, rooms: Seq<TileRect>, choices: Seq<bool>, i: int)
    requires
        generated_layout(m.w(), m.h(), rooms, choices, m.tiles@),
        rooms.len() >= 2,
        0 <= i < rooms.len(),
    ensures
        reachable(m, room_center(rooms[0]), room_center(rooms[i])),
    decreases i,
{
    let n = rooms.len() as int;
    let tw = m.w();
    let th = m.h();
    let rects = carve_list(rooms, choices, tw, th);
    assert(room_shape_ok(rooms[0], tw, th));
    if i == 0 {
        lemma_carved_rect_open(m, rooms, choices, 0);
        let r = rooms[0];
        assert(rects[0] == r);
        lemma_rect_reach(m, r.0 as int, r.1 as int, r.2 as int, r.3 as int, room_center(r), room_center(r));
    } else {
        lemma_centers_reached(m, rooms, choices, i - 1);
        let a = rooms[i - 1];
        let b = rooms[i];
        assert(room_shape_ok(a, tw, th));
        assert(room_shape_ok(b, tw, th));
        let ka = n + 2 * (i - 1);
        let kb = ka + 1;
        let cl = corridor_list(rooms, choices);
        assert(rects[ka] == cl[2 * (i - 1)]);
        assert(rects[kb] == cl[2 * (i - 1) + 1]);
        let pr = corridor_pair(a, b, choices[i - 1]);
        assert(cl[2 * (i - 1)] == pr.0);
        assert(cl[2 * (i - 1) + 1] == pr.1);
        lemma_carved_rect_open(m, rooms, choices, ka);
        lemma_carved_rect_open(m, rooms, choices, kb);
        let ca = room_center(a);
        let cb = room_center(b);
        let corner = if choices[i - 1] { (cb.0, ca.1) } else { (ca.0, cb.1) };
        let s0 = pr.0;
        let s1 = pr.1;
        lemma_rect_reach(m, s0.0 as int, s0.1 as int, s0.2 as int, s0.3 as int, ca, corner);
        lemma_rect_reach(m, s1.0 as int, s1.1 as int, s1.2 as int, s1.3 as int, corner, cb);
        lemma_reach_trans(m, ca, corner, cb);
        lemma_reach_trans(m, room_center(rooms[0]), ca, cb);
    }
}

/// Every tile of every carved rectangle is reached from the first room's
/// centre.
proof fn lemma_rect_tiles_reached(m: &MazeData, rooms: Seq<TileRect>, choices: Seq<bool>, j: int, t: (int, int))
    requires
        generated_layout(m.w(), m.h(), rooms, choices, m.tiles@),
        rooms.len() >= 1,
        0 <= j < carve_list(rooms, choices, m.w(), m.h()).len(),
        in_rect(carve_list(rooms, choices, m.w(), m.h())[j], t.0, t.1),
    ensures
        reachable(m, room_center(rooms[0]), t),
{
    let n = rooms.len() as int;
    let tw = m.w();
    let th = m.h();
    let rects = carve_list(rooms, choices, tw, th);
    let r = rects[j];
    let c0 = room_center(rooms[0]);
    assert(room_shape_ok(rooms[0], tw, th));
    lemma_carved_rect_open(m, rooms, choices, j);
    // a tile of `r` already reached from `c0`
    let q: (int, int) = if n < 2 {
        c0
    } else if j < n {
        room_center(rooms[j])
    } else if (j - n) % 2 == 0 {
        room_center(rooms[(j - n) / 2])
    } else {
        room_center(rooms[(j - n) / 2 + 1])
    };
    if n < 2 {
        assert(rects[0] == rooms[0]);
        lemma_carved_rect_open(m, rooms, choices, 0);
        let r0 = rooms[0];
        lemma_rect_reach(m, r0.0 as int, r0.1 as int, r0.2 as int, r0.3 as int, c0, c0);
    } else if j < n {
        assert(rects[j] == rooms[j]);
        assert(room_shape_ok(rooms[j], tw, th));
        lemma_centers_reached(m, rooms, choices, j);
    } else {
        let k = j - n;
        let i = k / 2 + 1;
        assert(room_shape_ok(rooms[i - 1], tw, th));
        assert(room_shape_ok(rooms[i], tw, th));
        let cl = corridor_list(rooms, choices);
        assert(rects[j] == cl[k]);
        if k % 2 == 0 {
            lemma_centers_reached(m, rooms, choices, i - 1);
        } else {
            lemma_centers_reached(m, rooms, choices, i);
        }
    }
    assert(r.0 <= q.0 <= r.2 && r.1 <= q.1 <= r.3);
    lemma_rect_reach(m, r.0 as int, r.1 as int, r.2 as int, r.3 as int, q, t);
    lemma_reach_trans(m, c0, q, t);
}

/// The walkable tiles of a generated layout form one region: rooms are
/// joined in turn by their corridors, and a lone room lies inside the big
/// room carved with it, so no walkable tile is cut off from another.
pub proof fn lemma_generated_layout_connected(m: &MazeData, rooms: Seq<TileRect>, choices: Seq<bool>)
    requires
        generated_layout(m.w(), m.h(), rooms, choices, m.tiles@),
        rooms.len() >= 1,
    ensures
        open_connected(m),
{
    let rects = carve_list(rooms, choices, m.w(), m.h());
    let c0 = room_center(rooms[0]);
    assert forall|ax: int, ay: int, bx: int, by: int|
        #![trigger m.is_open(ax, ay), m.is_open(bx, by)]
        m.is_open(ax, ay) && m.is_open(bx, by) implies reachable(m, (ax, ay), (bx, by)) by {
        assert(m.tiles@[cell_index(m.w(), ax, ay)] == !exists|jj: int|
            0 <= jj < rects.len() && #[trigger] in_rect(rects[jj], ax, ay));
        assert(m.tiles@[cell_index(m.w(), bx, by)] == !exists|jj: int|
            0 <= jj < rects.len() && #[trigger] in_rect(rects[jj], bx, by));
        let ja = choose|jj: int| 0 <= jj < rects.len() && #[trigger] in_rect(rects[jj], ax, ay);
        let jb = choose|jj: int| 0 <= jj < rects.len() && #[trigger] in_rect(rects[jj], bx, by);
        lemma_rect_tiles_reached(m, rooms, choices, ja, (ax, ay));
        lemma_rect_tiles_reached(m, rooms, choices, jb, (bx, by));
        lemma_reach_sym(m, c0, (ax, ay));
        lemma_reach_trans(m, (ax, ay), c0, (bx, by));
    }
}

} // verus!
