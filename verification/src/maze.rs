use vstd::prelude::*;
use std::collections::VecDeque;
use rand::rngs::StdRng;
use crate::rng::{draw_below, draw_index, gen_below, gen_index};

verus! {

/// Largest number of tiles a maze may have: tile indices are computed in
/// `u32`, and distances, with the small offsets the level planner adds to
/// them, stay within `i32`.
pub const MAX_CELLS: u32 = 0x7fff_ff00;

/// Bound on the absolute value of every world coordinate of a tile centre.
pub const WORLD_LIMIT: i32 = 0x2000_0000;

/// A tile grid. `tiles[y * tiles_w + x]` is `true` for a wall and `false`
/// for a walkable tile. Tile `(x, y)` has its centre at world position
/// `(origin_x + x * tile_size, origin_z + y * tile_size)` on the ground plane.
pub struct MazeData {
    pub tiles_w: u32,
    pub tiles_h: u32,
    pub tiles: Vec<bool>,
    pub tile_size: i32,
    pub origin_x: i32,
    pub origin_z: i32,
}

/// Row-major position of tile `(x, y)` in a grid `w` tiles wide.
pub open spec fn cell_index(w: int, x: int, y: int) -> int {
    y * w + x
}

pub proof fn lemma_cell_index_bounds(w: int, h: int, x: int, y: int)
    requires
        0 <= x < w,
        0 <= y < h,
    ensures
        0 <= y * w,
        y * w + x < w * h,
        0 <= cell_index(w, x, y) < w * h,
{
    assert(0 <= y * w) by (nonlinear_arith)
        requires
            0 <= y,
            0 <= w,
    ;
    assert(y * w + x < w * h) by (nonlinear_arith)
        requires
            0 <= x < w,
            0 <= y < h,
    ;
}

pub proof fn lemma_cell_index_injective(w: int, x1: int, y1: int, x2: int, y2: int)
    requires
        0 <= x1 < w,
        0 <= x2 < w,
        0 <= y1,
        0 <= y2,
        cell_index(w, x1, y1) == cell_index(w, x2, y2),
    ensures
        x1 == x2,
        y1 == y2,
{
    if y1 < y2 {
        assert(y1 * w + w <= y2 * w) by (nonlinear_arith)
            requires
                y1 < y2,
                0 <= w,
        ;
    } else if y2 < y1 {
        assert(y2 * w + w <= y1 * w) by (nonlinear_arith)
            requires
                y2 < y1,
                0 <= w,
        ;
    }
}

/// Horizontal offset of the `k`-th neighbour (left, right, up, down).
pub open spec fn dir_dx(k: int) -> int {
    if k == 0 {
        -1
    } else if k == 1 {
        1
    } else {
        0
    }
}

/// Vertical offset of the `k`-th neighbour (left, right, up, down).
pub open spec fn dir_dy(k: int) -> int {
    if k == 2 {
        -1
    } else if k == 3 {
        1
    } else {
        0
    }
}

/// Two tiles share an edge.
pub open spec fn adjacent(ax: int, ay: int, bx: int, by: int) -> bool {
    ||| ax == bx && (ay == by + 1 || by == ay + 1)
    ||| ay == by && (ax == bx + 1 || bx == ax + 1)
}

impl MazeData {
    pub open spec fn w(&self) -> int {
        self.tiles_w as int
    }

    pub open spec fn h(&self) -> int {
        self.tiles_h as int
    }

    pub open spec fn n(&self) -> int {
        self.w() * self.h()
    }

    /// Grid shape and coordinate ranges that every maze keeps.
    pub open spec fn wf(&self) -> bool {
        &&& 1 <= self.tiles_w
        &&& 1 <= self.tiles_h
        &&& self.n() <= MAX_CELLS
        &&& self.tiles@.len() == self.n()
        &&& 1 <= self.tile_size
        &&& -WORLD_LIMIT <= self.origin_x
        &&& -WORLD_LIMIT <= self.origin_z
        &&& self.origin_x + (self.w() - 1) * self.tile_size <= WORLD_LIMIT
        &&& self.origin_z + (self.h() - 1) * self.tile_size <= WORLD_LIMIT
    }

    pub open spec fn idx(&self, x: int, y: int) -> int {
        cell_index(self.w(), x, y)
    }

    pub open spec fn in_bounds(&self, x: int, y: int) -> bool {
        0 <= x < self.w() && 0 <= y < self.h()
    }

    /// Tile `(x, y)` lies in the grid and is walkable.
    pub open spec fn is_open(&self, x: int, y: int) -> bool {
        self.in_bounds(x, y) && !self.tiles@[self.idx(x, y)]
    }

    /// Tile `(x, y)` is not on the outer ring of the grid.
    pub open spec fn interior(&self, x: int, y: int) -> bool {
        1 <= x < self.w() - 1 && 1 <= y < self.h() - 1
    }

    pub open spec fn world_x(&self, x: int) -> int {
        self.origin_x + x * self.tile_size
    }

    pub open spec fn world_z(&self, y: int) -> int {
        self.origin_z + y * self.tile_size
    }

    pub proof fn lemma_dims(&self)
        requires
            self.wf(),
        ensures
            self.w() <= self.n(),
            self.h() <= self.n(),
    {
        assert(self.w() <= self.w() * self.h() && self.h() <= self.w() * self.h())
            by (nonlinear_arith)
            requires
                1 <= self.w(),
                1 <= self.h(),
        ;
    }

    /// Index of tile `(x, y)` in `tiles`.
    pub fn cell_idx(&self, x: u32, y: u32) -> (i: usize)
        requires
            self.wf(),
            x < self.tiles_w,
            y < self.tiles_h,
        ensures
            i == self.idx(x as int, y as int),
            i < self.n(),
    {
        proof {
            lemma_cell_index_bounds(self.w(), self.h(), x as int, y as int);
        }
        (y * self.tiles_w + x) as usize
    }

    /// Whether tile `(x, y)` is walkable.
    pub fn maze_is_open(&self, x: u32, y: u32) -> (r: bool)
        requires
            self.wf(),
            x < self.tiles_w,
            y < self.tiles_h,
        ensures
            r == self.is_open(x as int, y as int),
    {
        let i = self.cell_idx(x, y);
        !self.tiles[i]
    }

    pub proof fn lemma_world_bounds(&self, x: int, y: int)
        requires
            self.wf(),
            self.in_bounds(x, y),
        ensures
            -WORLD_LIMIT <= self.world_x(x) <= WORLD_LIMIT,
            -WORLD_LIMIT <= self.world_z(y) <= WORLD_LIMIT,
    {
        let ts = self.tile_size as int;
        assert(0 <= x * ts <= (self.w() - 1) * ts) by (nonlinear_arith)
            requires
                0 <= x <= self.w() - 1,
                1 <= ts,
        ;
        assert(0 <= y * ts <= (self.h() - 1) * ts) by (nonlinear_arith)
            requires
                0 <= y <= self.h() - 1,
                1 <= ts,
        ;
    }

    /// World position `(x, z)` of the centre of tile `(x, y)`.
    pub fn maze_tile_to_world_center(&self, x: u32, y: u32) -> (p: (i32, i32))
        requires
            self.wf(),
            x < self.tiles_w,
            y < self.tiles_h,
        ensures
            p.0 == self.world_x(x as int),
            p.1 == self.world_z(y as int),
    {
        proof {
            self.lemma_world_bounds(x as int, y as int);
        }
        let wx = self.origin_x as i64 + x as i64 * self.tile_size as i64;
        let wz = self.origin_z as i64 + y as i64 * self.tile_size as i64;
        (wx as i32, wz as i32)
    }
}


/// `D` is the distance field of a breadth-first search from `start`:
/// `-1` on every tile not reached, `0` on the start, every reached tile other
/// than the start has a neighbour one step closer, and every walkable
/// neighbour of a reached tile is reached and at most one step farther.
pub open spec fn is_bfs_distance(m: &MazeData, start: (u32, u32), d: Seq<i32>) -> bool {
    &&& d.len() == m.n()
    &&& forall|i: int| 0 <= i < d.len() ==> d[i] >= -1
    &&& if !m.is_open(start.0 as int, start.1 as int) {
        forall|i: int| 0 <= i < d.len() ==> d[i] == -1
    } else {
        &&& d[m.idx(start.0 as int, start.1 as int)] == 0
        &&& forall|x: int, y: int|
            #![trigger d[m.idx(x, y)]]
            m.in_bounds(x, y) && d[m.idx(x, y)] >= 0 ==> m.is_open(x, y)
        &&& forall|x: int, y: int|
            #![trigger d[m.idx(x, y)]]
            m.in_bounds(x, y) && d[m.idx(x, y)] == 0 ==> x == start.0 && y == start.1
        &&& forall|x: int, y: int|
            #![trigger d[m.idx(x, y)]]
            m.in_bounds(x, y) && d[m.idx(x, y)] > 0 ==> has_closer_neighbour(m, d, x, y)
        &&& forall|x: int, y: int|
            #![trigger d[m.idx(x, y)]]
            m.in_bounds(x, y) && d[m.idx(x, y)] >= 0 ==> neighbours_reached(m, d, x, y)
    }
}

/// Some neighbour of `(x, y)` has a distance one less than `(x, y)`.
pub open spec fn has_closer_neighbour(m: &MazeData, d: Seq<i32>, x: int, y: int) -> bool {
    exists|k: int|
        0 <= k < 4 && m.in_bounds(x + dir_dx(k), y + dir_dy(k)) && #[trigger] d[m.idx(
            x + dir_dx(k),
            y + dir_dy(k),
        )] == d[m.idx(x, y)] - 1
}

/// The first `upto` neighbours of `(x, y)` that are walkable are reached,
/// at most one step farther than `(x, y)`.
pub open spec fn neighbours_reached_upto(
    m: &MazeData,
    d: Seq<i32>,
    x: int,
    y: int,
    upto: int,
) -> bool {
    forall|k: int|
        0 <= k < upto && #[trigger] m.is_open(x + dir_dx(k), y + dir_dy(k)) ==> {
            &&& d[m.idx(x + dir_dx(k), y + dir_dy(k))] >= 0
            &&& d[m.idx(x + dir_dx(k), y + dir_dy(k))] <= d[m.idx(x, y)] + 1
        }
}

pub open spec fn neighbours_reached(m: &MazeData, d: Seq<i32>, x: int, y: int) -> bool {
    neighbours_reached_upto(m, d, x, y, 4)
}

/// Bookkeeping of the search: `order` lists the tiles in the order they were
/// reached, `pos` maps a tile index to its place in `order` (or `-1`),
/// `parent[k]` is the place of the tile from which `order[k]` was reached.
spec fn bfs_state(
    m: &MazeData,
    start: (u32, u32),
    d: Seq<i32>,
    order: Seq<(u32, u32)>,
    pos: Seq<int>,
    parent: Seq<int>,
) -> bool {
    &&& d.len() == m.n()
    &&& pos.len() == m.n()
    &&& parent.len() == order.len()
    &&& order.len() >= 1
    &&& order[0] == start
    &&& forall|k: int|
        #![trigger order[k]]
        0 <= k < order.len() ==> {
            &&& m.is_open(order[k].0 as int, order[k].1 as int)
            &&& pos[m.idx(order[k].0 as int, order[k].1 as int)] == k
            &&& 0 <= d[m.idx(order[k].0 as int, order[k].1 as int)] <= k
        }
    &&& forall|i: int|
        #![trigger d[i]]
        #![trigger pos[i]]
        0 <= i < m.n() ==> {
            &&& d[i] >= -1
            &&& (d[i] >= 0 <==> pos[i] >= 0)
            &&& pos[i] >= 0 ==> pos[i] < order.len() && m.idx(
                order[pos[i]].0 as int,
                order[pos[i]].1 as int,
            ) == i
        }
    &&& forall|k1: int, k2: int|
        #![trigger order[k1], order[k2]]
        0 <= k1 <= k2 < order.len() ==> d[m.idx(order[k1].0 as int, order[k1].1 as int)] <= d[m.idx(
            order[k2].0 as int,
            order[k2].1 as int,
        )]
    &&& forall|k: int|
        #![trigger parent[k]]
        0 < k < order.len() ==> {
            &&& 0 <= parent[k] < k
            &&& adjacent(
                order[parent[k]].0 as int,
                order[parent[k]].1 as int,
                order[k].0 as int,
                order[k].1 as int,
            )
            &&& d[m.idx(order[k].0 as int, order[k].1 as int)] == d[m.idx(
                order[parent[k]].0 as int,
                order[parent[k]].1 as int,
            )] + 1
        }
}

proof fn lemma_order_len(
    m: &MazeData,
    start: (u32, u32),
    d: Seq<i32>,
    order: Seq<(u32, u32)>,
    pos: Seq<int>,
    parent: Seq<int>,
)
    requires
        m.wf(),
        bfs_state(m, start, d, order, pos, parent),
    ensures
        order.len() <= m.n(),
{
    let s = Seq::new(order.len(), |k: int| m.idx(order[k].0 as int, order[k].1 as int));
    assert forall|k1: int, k2: int| 0 <= k1 < s.len() && 0 <= k2 < s.len() && k1 != k2 implies s[k1]
        != s[k2] by {
        let _ = order[k1];
        let _ = order[k2];
    }
    assert(s.no_duplicates());
    s.unique_seq_to_set();
    let r = vstd::set_lib::set_int_range(0, m.n());
    assert forall|i: int| s.to_set().contains(i) implies r.contains(i) by {
        let k = choose|k: int| 0 <= k < s.len() && s[k] == i;
        let c = order[k];
        lemma_cell_index_bounds(m.w(), m.h(), c.0 as int, c.1 as int);
    }
    vstd::set_lib::lemma_int_range(0, m.n());
    vstd::set_lib::lemma_len_subset(s.to_set(), r);
}

impl MazeData {
    /// Breadth-first distances, in steps between edge-adjacent walkable
    /// tiles, from `start` to every tile (`-1` where unreachable, everywhere
    /// if `start` is a wall).
    pub fn maze_bfs_dist(&self, start: (u32, u32)) -> (dist: Vec<i32>)
        requires
            self.wf(),
            start.0 < self.tiles_w,
            start.1 < self.tiles_h,
        ensures
            is_bfs_distance(self, start, dist@),
            forall|i: int| 0 <= i < dist@.len() ==> #[trigger] dist@[i] < self.n(),
    {
        proof {
            self.lemma_dims();
        }
        let n = (self.tiles_w * self.tiles_h) as usize;
        let mut dist: Vec<i32> = vec![-1i32; n];
        if !self.maze_is_open(start.0, start.1) {
            return dist;
        }
        let mut q: VecDeque<(u32, u32)> = VecDeque::new();
        let si = self.cell_idx(start.0, start.1);
        dist.set(si, 0);
        q.push_back(start);
        let ghost mut order: Seq<(u32, u32)> = seq![start];
        let ghost mut pos: Seq<int> = Seq::new(n as nat, |i: int| if i == si { 0 } else { -1 });
        let ghost mut parent: Seq<int> = seq![0int];
        let ghost mut head: int = 0;
        assert(bfs_state(self, start, dist@, order, pos, parent)) by {
            assert forall|i: int| 0 <= i < self.n() implies dist@[i] >= -1 && (dist@[i] >= 0
                <==> pos[i] >= 0) by {}
        }
        loop
            invariant
                self.wf(),
                start.0 < self.tiles_w,
                start.1 < self.tiles_h,
                bfs_state(self, start, dist@, order, pos, parent),
                0 <= head <= order.len(),
                q@ == order.subrange(head, order.len() as int),
                forall|k: int|
                    0 <= k < head ==> #[trigger] neighbours_reached(
                        self,
                        dist@,
                        order[k].0 as int,
                        order[k].1 as int,
                    ),
                head < order.len() ==> dist@[self.idx(
                    order[order.len() - 1].0 as int,
                    order[order.len() - 1].1 as int,
                )] <= dist@[self.idx(order[head].0 as int, order[head].1 as int)] + 1,
            ensures
                bfs_state(self, start, dist@, order, pos, parent),
                forall|k: int|
                    0 <= k < order.len() ==> #[trigger] neighbours_reached(
                        self,
                        dist@,
                        order[k].0 as int,
                        order[k].1 as int,
                    ),
            decreases self.n() - head,
        {
            proof {
                lemma_order_len(self, start, dist@, order, pos, parent);
            }
            let cur = q.pop_front();
            match cur {
                None => {
                    assert(head == order.len());
                    break;
                },
                Some(c) => {
                    let (x, y) = c;
                    assert(c == order[head]);
                    let ci = self.cell_idx(x, y);
                    let d0 = dist[ci];
                    proof {
                        head = head + 1;
                    }
                    let mut j: usize = 0;
                    while j < 4
                        invariant
                            self.wf(),
                            start.0 < self.tiles_w,
                            start.1 < self.tiles_h,
                            bfs_state(self, start, dist@, order, pos, parent),
                            1 <= head <= order.len(),
                            c == order[head - 1],
                            x == c.0,
                            y == c.1,
                            ci == self.idx(x as int, y as int),
                            ci < self.n(),
                            d0 == dist@[ci as int],
                            0 <= d0 < head,
                            j <= 4,
                            q@ == order.subrange(head, order.len() as int),
                            forall|k: int|
                                0 <= k < head - 1 ==> #[trigger] neighbours_reached(
                                    self,
                                    dist@,
                                    order[k].0 as int,
                                    order[k].1 as int,
                                ),
                            neighbours_reached_upto(self, dist@, x as int, y as int, j as int),
                            dist@[self.idx(
                                order[order.len() - 1].0 as int,
                                order[order.len() - 1].1 as int,
                            )] <= d0 + 1,
                        decreases 4 - j,
                    {
                        proof {
                            lemma_order_len(self, start, dist@, order, pos, parent);
                            let _ = order[head - 1];
                            self.lemma_dims();
                        }
                        let nx: i32 = if j == 0 {
                            x as i32 - 1
                        } else if j == 1 {
                            x as i32 + 1
                        } else {
                            x as i32
                        };
                        let ny: i32 = if j == 2 {
                            y as i32 - 1
                        } else if j == 3 {
                            y as i32 + 1
                        } else {
                            y as i32
                        };
                        assert(nx == x + dir_dx(j as int) && ny == y + dir_dy(j as int));
                        let ghost old_d = dist@;
                        let ghost old_order = order;
                        let ghost kk = j as int;
                        if nx >= 0 && ny >= 0 && (nx as u32) < self.tiles_w && (ny as u32)
                            < self.tiles_h {
                            let ux = nx as u32;
                            let uy = ny as u32;
                            if self.maze_is_open(ux, uy) {
                                let ii = self.cell_idx(ux, uy);
                                if dist[ii] < 0 {
                                    dist.set(ii, d0 + 1);
                                    q.push_back((ux, uy));
                                    proof {
                                        let ghost old_pos = pos;
                                        let ghost old_parent = parent;
                                        order = order.push((ux, uy));
                                        pos = pos.update(ii as int, old_order.len() as int);
                                        parent = parent.push(head - 1);
                                        assert(q@ =~= order.subrange(head, order.len() as int));
                                        assert(adjacent(x as int, y as int, ux as int, uy as int));
                                        self.lemma_push_keeps_state(
                                            start,
                                            old_d,
                                            dist@,
                                            old_order,
                                            order,
                                            old_pos,
                                            pos,
                                            old_parent,
                                            parent,
                                            head - 1,
                                            ux,
                                            uy,
                                        );
                                        assert(old_d[ci as int] == d0);
                                        assert(0 <= ci < self.n());
                                        assert(old_d[ci as int] >= 0);
                                        assert(dist@[ci as int] == d0);
                                        assert(dist@[self.idx(x + dir_dx(kk), y + dir_dy(kk))] == d0
                                            + 1);
                                    }
                                } else {
                                    proof {
                                        self.lemma_seen_is_near(
                                            start,
                                            dist@,
                                            order,
                                            pos,
                                            parent,
                                            ux as int,
                                            uy as int,
                                        );
                                        assert(dist@[self.idx(x + dir_dx(kk), y + dir_dy(kk))] <= d0
                                            + 1);
                                    }
                                }
                            } else {
                                assert(!self.is_open(x + dir_dx(kk), y + dir_dy(kk)));
                            }
                        } else {
                            assert(!self.is_open(x + dir_dx(kk), y + dir_dy(kk)));
                        }
                        proof {
                            assert(forall|i: int|
                                #![trigger dist@[i]]
                                0 <= i < self.n() && old_d[i] >= 0 ==> dist@[i] == old_d[i]);
                            assert(dist@[ci as int] == d0);
                            assert forall|k: int| 0 <= k < head - 1 implies #[trigger] neighbours_reached(
                                self,
                                dist@,
                                order[k].0 as int,
                                order[k].1 as int,
                            ) by {
                                let ok = old_order[k];
                                assert(order[k] == ok);
                                assert(neighbours_reached(self, old_d, ok.0 as int, ok.1 as int));
                                self.lemma_reached_stable(
                                    old_d,
                                    dist@,
                                    ok.0 as int,
                                    ok.1 as int,
                                    4,
                                );
                            }
                            self.lemma_reached_stable(old_d, dist@, x as int, y as int, j as int);
                            assert(neighbours_reached_upto(
                                self,
                                dist@,
                                x as int,
                                y as int,
                                j + 1,
                            ));
                        }
                        j = j + 1;
                    }
                },
            }
        }
        proof {
            self.lemma_search_complete(start, dist@, order, pos, parent);
            lemma_order_len(self, start, dist@, order, pos, parent);
            assert forall|i: int| 0 <= i < dist@.len() implies #[trigger] dist@[i] < self.n() by {
                if dist@[i] >= 0 {
                    let _ = order[pos[i]];
                }
            }
        }
        dist
    }
}


impl MazeData {
    proof fn lemma_reached_stable(&self, d1: Seq<i32>, d2: Seq<i32>, x: int, y: int, upto: int)
        requires
            self.wf(),
            d1.len() == self.n(),
            d2.len() == self.n(),
            self.in_bounds(x, y),
            0 <= d1[self.idx(x, y)],
            forall|i: int| #![trigger d2[i]] 0 <= i < self.n() && d1[i] >= 0 ==> d2[i] == d1[i],
            neighbours_reached_upto(self, d1, x, y, upto),
        ensures
            neighbours_reached_upto(self, d2, x, y, upto),
    {
        lemma_cell_index_bounds(self.w(), self.h(), x, y);
        assert forall|k: int|
            0 <= k < upto && #[trigger] self.is_open(x + dir_dx(k), y + dir_dy(k)) implies {
            &&& d2[self.idx(x + dir_dx(k), y + dir_dy(k))] >= 0
            &&& d2[self.idx(x + dir_dx(k), y + dir_dy(k))] <= d2[self.idx(x, y)] + 1
        } by {
            lemma_cell_index_bounds(self.w(), self.h(), x + dir_dx(k), y + dir_dy(k));
        }
    }

    /// A tile that already has a distance is at most one step farther than
    /// the tile being expanded.
    proof fn lemma_seen_is_near(
        &self,
        start: (u32, u32),
        d: Seq<i32>,
        order: Seq<(u32, u32)>,
        pos: Seq<int>,
        parent: Seq<int>,
        x: int,
        y: int,
    )
        requires
            self.wf(),
            bfs_state(self, start, d, order, pos, parent),
            self.in_bounds(x, y),
            d[self.idx(x, y)] >= 0,
        ensures
            d[self.idx(x, y)] <= d[self.idx(
                order[order.len() - 1].0 as int,
                order[order.len() - 1].1 as int,
            )],
    {
        lemma_cell_index_bounds(self.w(), self.h(), x, y);
        let i = self.idx(x, y);
        let k = pos[i];
        assert(d[i] >= -1);
        let _ = order[k];
        assert(0 <= k <= order.len() - 1);
    }

    proof fn lemma_push_keeps_state(
        &self,
        start: (u32, u32),
        d1: Seq<i32>,
        d2: Seq<i32>,
        o1: Seq<(u32, u32)>,
        o2: Seq<(u32, u32)>,
        p1: Seq<int>,
        p2: Seq<int>,
        parent1: Seq<int>,
        parent2: Seq<int>,
        h: int,
        ux: u32,
        uy: u32,
    )
        requires
            self.wf(),
            bfs_state(self, start, d1, o1, p1, parent1),
            0 <= h < o1.len(),
            self.is_open(ux as int, uy as int),
            d1[self.idx(ux as int, uy as int)] < 0,
            adjacent(o1[h].0 as int, o1[h].1 as int, ux as int, uy as int),
            d1[self.idx(o1[o1.len() - 1].0 as int, o1[o1.len() - 1].1 as int)] <= d1[self.idx(
                o1[h].0 as int,
                o1[h].1 as int,
            )] + 1,
            d2 == d1.update(
                self.idx(ux as int, uy as int),
                (d1[self.idx(o1[h].0 as int, o1[h].1 as int)] + 1) as i32,
            ),
            o2 == o1.push((ux, uy)),
            p2 == p1.update(self.idx(ux as int, uy as int), o1.len() as int),
            parent2 == parent1.push(h),
        ensures
            bfs_state(self, start, d2, o2, p2, parent2),
            forall|i: int| #![trigger d2[i]] 0 <= i < self.n() && d1[i] >= 0 ==> d2[i] == d1[i],
    {
        let ni = self.idx(ux as int, uy as int);
        lemma_cell_index_bounds(self.w(), self.h(), ux as int, uy as int);
        lemma_order_len(self, start, d1, o1, p1, parent1);
        let c = o1[h];
        let d0 = d1[self.idx(c.0 as int, c.1 as int)];
        assert(d0 <= h);
        assert(p1[ni] < 0);
        // every tile already listed keeps its index and distance
        assert forall|k: int| 0 <= k < o1.len() implies self.idx(o1[k].0 as int, o1[k].1 as int)
            != ni && 0 <= self.idx(o1[k].0 as int, o1[k].1 as int) < self.n() by {
            let ck = o1[k];
            assert(p1[self.idx(ck.0 as int, ck.1 as int)] == k);
            lemma_cell_index_bounds(self.w(), self.h(), ck.0 as int, ck.1 as int);
        }
        assert forall|k: int|
            #![trigger o2[k]]
            0 <= k < o2.len() implies {
            &&& self.is_open(o2[k].0 as int, o2[k].1 as int)
            &&& p2[self.idx(o2[k].0 as int, o2[k].1 as int)] == k
            &&& 0 <= d2[self.idx(o2[k].0 as int, o2[k].1 as int)] <= k
        } by {
            if k < o1.len() {
                let _ = o1[k];
                lemma_cell_index_bounds(self.w(), self.h(), o1[k].0 as int, o1[k].1 as int);
            }
        }
        assert forall|i: int|
            #![trigger d2[i]]
            #![trigger p2[i]]
            0 <= i < self.n() implies {
            &&& d2[i] >= -1
            &&& (d2[i] >= 0 <==> p2[i] >= 0)
            &&& p2[i] >= 0 ==> p2[i] < o2.len() && self.idx(o2[p2[i]].0 as int, o2[p2[i]].1 as int)
                == i
        } by {
            assert(d1[i] >= -1);
            if i != ni && p1[i] >= 0 {
                let _ = o1[p1[i]];
            }
        }
        assert forall|k1: int, k2: int| 0 <= k1 <= k2 < o2.len() implies d2[self.idx(
            o2[k1].0 as int,
            o2[k1].1 as int,
        )] <= d2[self.idx(o2[k2].0 as int, o2[k2].1 as int)] by {
            if k2 < o1.len() {
                assert(o2[k1] == o1[k1]);
                assert(o2[k2] == o1[k2]);
                assert(self.idx(o1[k1].0 as int, o1[k1].1 as int) != ni);
                assert(self.idx(o1[k2].0 as int, o1[k2].1 as int) != ni);
                assert(d1[self.idx(o1[k1].0 as int, o1[k1].1 as int)] <= d1[self.idx(
                    o1[k2].0 as int,
                    o1[k2].1 as int,
                )]);
            } else if k1 < o1.len() {
                assert(o2[k1] == o1[k1]);
                assert(self.idx(o1[k1].0 as int, o1[k1].1 as int) != ni);
                let _ = o1[o1.len() - 1];
                assert(d1[self.idx(o1[k1].0 as int, o1[k1].1 as int)] <= d1[self.idx(
                    o1[o1.len() - 1].0 as int,
                    o1[o1.len() - 1].1 as int,
                )]);
            }
        }
        assert forall|k: int|
            #![trigger parent2[k]]
            0 < k < o2.len() implies {
            &&& 0 <= parent2[k] < k
            &&& adjacent(
                o2[parent2[k]].0 as int,
                o2[parent2[k]].1 as int,
                o2[k].0 as int,
                o2[k].1 as int,
            )
            &&& d2[self.idx(o2[k].0 as int, o2[k].1 as int)] == d2[self.idx(
                o2[parent2[k]].0 as int,
                o2[parent2[k]].1 as int,
            )] + 1
        } by {
            if k < o1.len() {
                let pk = parent1[k];
                assert(0 <= pk < k);
                assert(o2[k] == o1[k]);
                assert(o2[pk] == o1[pk]);
                assert(self.idx(o1[k].0 as int, o1[k].1 as int) != ni);
                assert(self.idx(o1[pk].0 as int, o1[pk].1 as int) != ni);
            } else {
                assert(o2[h] == o1[h]);
                assert(self.idx(o1[h].0 as int, o1[h].1 as int) != ni);
            }
        }
        assert forall|i: int| #![trigger d2[i]] 0 <= i < self.n() && d1[i] >= 0 implies d2[i]
            == d1[i] by {}
    }

    /// When the queue runs dry every reached tile has been expanded, and the
    /// bookkeeping yields the distance-field characterisation.
    proof fn lemma_search_complete(
        &self,
        start: (u32, u32),
        d: Seq<i32>,
        order: Seq<(u32, u32)>,
        pos: Seq<int>,
        parent: Seq<int>,
    )
        requires
            self.wf(),
            bfs_state(self, start, d, order, pos, parent),
            forall|k: int|
                0 <= k < order.len() ==> #[trigger] neighbours_reached(
                    self,
                    d,
                    order[k].0 as int,
                    order[k].1 as int,
                ),
        ensures
            is_bfs_distance(self, start, d),
    {
        let _ = order[0];
        assert forall|i: int| 0 <= i < d.len() implies d[i] >= -1 by {}
        assert forall|x: int, y: int|
            #![trigger d[self.idx(x, y)]]
            self.in_bounds(x, y) && d[self.idx(x, y)] >= 0 implies {
            &&& self.is_open(x, y)
            &&& (d[self.idx(x, y)] == 0 ==> x == start.0 && y == start.1)
            &&& (d[self.idx(x, y)] > 0 ==> has_closer_neighbour(self, d, x, y))
            &&& neighbours_reached(self, d, x, y)
        } by {
            lemma_cell_index_bounds(self.w(), self.h(), x, y);
            let i = self.idx(x, y);
            let k = pos[i];
            let c = order[k];
            lemma_cell_index_injective(self.w(), x, y, c.0 as int, c.1 as int);
            assert(c.0 == x && c.1 == y);
            if k > 0 {
                let pk = parent[k];
                let pc = order[pk];
                assert(d[self.idx(pc.0 as int, pc.1 as int)] >= 0);
                if d[i] > 0 {
                    let kk: int = if pc.0 as int == x - 1 {
                        0
                    } else if pc.0 as int == x + 1 {
                        1
                    } else if pc.1 as int == y - 1 {
                        2
                    } else {
                        3
                    };
                    assert(pc.0 == x + dir_dx(kk) && pc.1 == y + dir_dy(kk));
                    assert(d[self.idx(x + dir_dx(kk), y + dir_dy(kk))] == d[i] - 1);
                }
            }
        }
    }
}


/// A walk through the maze: one or more walkable tiles, each sharing an edge
/// with the next.
pub open spec fn is_walk(m: &MazeData, p: Seq<(int, int)>) -> bool {
    &&& p.len() >= 1
    &&& forall|i: int| 0 <= i < p.len() ==> #[trigger] m.is_open(p[i].0, p[i].1)
    &&& forall|i: int|
        0 <= i < p.len() - 1 ==> adjacent(#[trigger] p[i].0, p[i].1, p[i + 1].0, p[i + 1].1)
}

pub proof fn lemma_adjacent_direction(ax: int, ay: int, bx: int, by: int) -> (k: int)
    requires
        adjacent(ax, ay, bx, by),
    ensures
        0 <= k < 4,
        bx == ax + dir_dx(k),
        by == ay + dir_dy(k),
{
    if bx == ax - 1 {
        0
    } else if bx == ax + 1 {
        1
    } else if by == ay - 1 {
        2
    } else {
        3
    }
}

/// Every walk that starts on the start tile ends on a tile that has a
/// distance, and that distance is at most the number of steps of the walk:
/// the distance field never overestimates.
#[verifier::rlimit(40)]
pub proof fn lemma_bfs_distance_at_most_walk(
    m: &MazeData,
    start: (u32, u32),
    d: Seq<i32>,
    p: Seq<(int, int)>,
)
    requires
        m.wf(),
        is_bfs_distance(m, start, d),
        is_walk(m, p),
        p[0] == (start.0 as int, start.1 as int),
    ensures
        d[m.idx(p[p.len() - 1].0, p[p.len() - 1].1)] >= 0,
        d[m.idx(p[p.len() - 1].0, p[p.len() - 1].1)] <= p.len() - 1,
    decreases p.len(),
{
    assert(m.is_open(p[0].0, p[0].1));
    assert(m.is_open(start.0 as int, start.1 as int));
    if p.len() > 1 {
        let q = p.drop_last();
        assert forall|i: int| 0 <= i < q.len() implies #[trigger] m.is_open(q[i].0, q[i].1) by {
            assert(m.is_open(p[i].0, p[i].1));
        }
        assert forall|i: int| 0 <= i < q.len() - 1 implies adjacent(
            #[trigger] q[i].0,
            q[i].1,
            q[i + 1].0,
            q[i + 1].1,
        ) by {
            assert(adjacent(p[i].0, p[i].1, p[i + 1].0, p[i + 1].1));
        }
        lemma_bfs_distance_at_most_walk(m, start, d, q);
        let a = p[p.len() - 2];
        let b = p[p.len() - 1];
        assert(adjacent(p[p.len() - 2].0, a.1, b.0, b.1));
        assert(m.is_open(p[p.len() - 1].0, b.1));
        let k = lemma_adjacent_direction(a.0, a.1, b.0, b.1);
        assert(q[q.len() - 1] == a);
        assert(d[m.idx(a.0, a.1)] >= 0);
        assert(m.is_open(p[p.len() - 2].0, p[p.len() - 2].1));
        assert(m.in_bounds(a.0, a.1));
        assert(neighbours_reached(m, d, a.0, a.1));
        assert(m.is_open(a.0 + dir_dx(k), a.1 + dir_dy(k)));
    }
}

/// A tile reached in one distance field from `start` is reached in any
/// other, and no farther away.
proof fn lemma_bfs_distance_bounded_by(
    m: &MazeData,
    start: (u32, u32),
    d1: Seq<i32>,
    d2: Seq<i32>,
    x: int,
    y: int,
)
    requires
        m.wf(),
        is_bfs_distance(m, start, d1),
        is_bfs_distance(m, start, d2),
        m.in_bounds(x, y),
        d1[m.idx(x, y)] >= 0,
    ensures
        0 <= d2[m.idx(x, y)] <= d1[m.idx(x, y)],
    decreases d1[m.idx(x, y)],
{
    lemma_cell_index_bounds(m.w(), m.h(), x, y);
    if !m.is_open(start.0 as int, start.1 as int) {
        assert(d1[m.idx(x, y)] == -1);
    }
    if d1[m.idx(x, y)] == 0 {
        assert(x == start.0 && y == start.1);
    } else {
        assert(has_closer_neighbour(m, d1, x, y));
        let kk = choose|kk: int|
            0 <= kk < 4 && m.in_bounds(x + dir_dx(kk), y + dir_dy(kk)) && #[trigger] d1[m.idx(
                x + dir_dx(kk),
                y + dir_dy(kk),
            )] == d1[m.idx(x, y)] - 1;
        let nx = x + dir_dx(kk);
        let ny = y + dir_dy(kk);
        lemma_bfs_distance_bounded_by(m, start, d1, d2, nx, ny);
        let back: int = if kk == 0 {
            1
        } else if kk == 1 {
            0
        } else if kk == 2 {
            3
        } else {
            2
        };
        assert(nx + dir_dx(back) == x && ny + dir_dy(back) == y);
        assert(m.is_open(x, y));
        assert(neighbours_reached(m, d2, nx, ny));
        assert(m.is_open(nx + dir_dx(back), ny + dir_dy(back)));
    }
}

/// The distance field of a breadth-first search from `start` is unique:
/// two fields that both meet `is_bfs_distance` are equal.
pub proof fn lemma_bfs_distance_unique(m: &MazeData, start: (u32, u32), d1: Seq<i32>, d2: Seq<i32>)
    requires
        m.wf(),
        is_bfs_distance(m, start, d1),
        is_bfs_distance(m, start, d2),
    ensures
        d1 == d2,
{
    assert forall|x: int, y: int| 0 <= x < m.w() && 0 <= y < m.h() implies #[trigger] d1[cell_index(
        m.w(),
        x,
        y,
    )] == d2[cell_index(m.w(), x, y)] by {
        lemma_bfs_tile_agrees(m, start, d1, d2, x, y);
    }
    lemma_seq_eq_by_cells(m.w(), m.h(), d1, d2);
}

/// Two distance fields from `start` agree on tile `(x, y)`.
proof fn lemma_bfs_tile_agrees(m: &MazeData, start: (u32, u32), d1: Seq<i32>, d2: Seq<i32>, x: int, y: int)
    requires
        m.wf(),
        is_bfs_distance(m, start, d1),
        is_bfs_distance(m, start, d2),
        m.in_bounds(x, y),
    ensures
        d1[m.idx(x, y)] == d2[m.idx(x, y)],
{
    lemma_cell_index_bounds(m.w(), m.h(), x, y);
    if d1[m.idx(x, y)] >= 0 {
        lemma_bfs_distance_bounded_by(m, start, d1, d2, x, y);
        lemma_bfs_distance_bounded_by(m, start, d2, d1, x, y);
    } else if d2[m.idx(x, y)] >= 0 {
        lemma_bfs_distance_bounded_by(m, start, d2, d1, x, y);
    }
}

/// Two sequences of one entry per tile of a `w` by `h` grid that agree on
/// every tile are equal.
pub proof fn lemma_seq_eq_by_cells<T>(w: int, h: int, d1: Seq<T>, d2: Seq<T>)
    requires
        1 <= w,
        d1.len() == w * h,
        d2.len() == w * h,
        forall|x: int, y: int|
            0 <= x < w && 0 <= y < h ==> #[trigger] d1[cell_index(w, x, y)] == d2[cell_index(w, x, y)],
    ensures
        d1 == d2,
{
    assert forall|i: int| 0 <= i < d1.len() implies d1[i] == d2[i] by {
        let x = i % w;
        let y = i / w;
        assert(i == y * w + x && 0 <= x < w && 0 <= y < h) by (nonlinear_arith)
            requires
                0 <= i < w * h,
                1 <= w,
                x == i % w,
                y == i / w,
        ;
        assert(cell_index(w, x, y) == i);
        assert(d1[cell_index(w, x, y)] == d2[cell_index(w, x, y)]);
    }
    assert(d1 =~= d2);
}

/// Every tile that has a distance is the end of a walk from the start that
/// takes exactly that many steps, and the distance grows by one per step
/// along it: the distance field never underestimates.
#[verifier::rlimit(40)]
#[verifier::spinoff_prover]
pub proof fn lemma_bfs_distance_has_walk(
    m: &MazeData,
    start: (u32, u32),
    d: Seq<i32>,
    x: int,
    y: int,
) -> (p: Seq<(int, int)>)
    requires
        m.wf(),
        is_bfs_distance(m, start, d),
        m.in_bounds(x, y),
        d[m.idx(x, y)] >= 0,
    ensures
        is_walk(m, p),
        p[0] == (start.0 as int, start.1 as int),
        p[p.len() - 1] == (x, y),
        p.len() == d[m.idx(x, y)] + 1,
        forall|i: int| 0 <= i < p.len() ==> #[trigger] d[m.idx(p[i].0, p[i].1)] == i,
    decreases d[m.idx(x, y)],
{
    lemma_cell_index_bounds(m.w(), m.h(), x, y);
    if !m.is_open(start.0 as int, start.1 as int) {
        assert(d[m.idx(x, y)] == -1);
    }
    assert(m.is_open(x, y));
    if d[m.idx(x, y)] == 0 {
        let p = seq![(x, y)];
        assert(is_walk(m, p));
        p
    } else {
        assert(has_closer_neighbour(m, d, x, y));
        let k = choose|k: int|
            0 <= k < 4 && m.in_bounds(x + dir_dx(k), y + dir_dy(k)) && #[trigger] d[m.idx(
                x + dir_dx(k),
                y + dir_dy(k),
            )] == d[m.idx(x, y)] - 1;
        let nx = x + dir_dx(k);
        let ny = y + dir_dy(k);
        let q = lemma_bfs_distance_has_walk(m, start, d, nx, ny);
        let p = q.push((x, y));
        assert(adjacent(nx, ny, x, y));
        assert forall|i: int| 0 <= i < p.len() implies #[trigger] m.is_open(p[i].0, p[i].1) by {
            if i < q.len() {
                assert(m.is_open(q[i].0, q[i].1));
            }
        }
        assert forall|i: int| 0 <= i < p.len() - 1 implies adjacent(
            #[trigger] p[i].0,
            p[i].1,
            p[i + 1].0,
            p[i + 1].1,
        ) by {
            if i < q.len() - 1 {
                assert(adjacent(q[i].0, q[i].1, q[i + 1].0, q[i + 1].1));
            }
        }
        assert forall|i: int| 0 <= i < p.len() implies #[trigger] d[m.idx(p[i].0, p[i].1)] == i by {
            if i < q.len() {
                assert(d[m.idx(q[i].0, q[i].1)] == i);
            }
        }
        p
    }
}


/// Orientation of a door placed in a corridor: `Ns` across a north-south
/// corridor, `Ew` across an east-west one.
#[derive(Debug, Clone, Copy, PartialEq, Eq, Structural)]
pub enum DoorAxis {
    Ns,
    Ew,
}

/// Integer division of `n` by a positive `q`, rounded to the nearest integer
/// with halves rounded away from zero.
pub open spec fn round_div(n: int, q: int) -> int {
    if n >= 0 {
        (2 * n + q) / (2 * q)
    } else {
        -((-2 * n + q) / (2 * q))
    }
}

/// Tile `(x, y)` is a corridor chokepoint: exactly two opposite neighbours
/// are walkable. The result says which way a door across it faces.
pub open spec fn chokepoint_axis(m: &MazeData, x: int, y: int) -> Option<DoorAxis> {
    let l = m.is_open(x - 1, y);
    let r = m.is_open(x + 1, y);
    let u = m.is_open(x, y - 1);
    let dn = m.is_open(x, y + 1);
    if u && dn && !l && !r {
        Some(DoorAxis::Ns)
    } else if l && r && !u && !dn {
        Some(DoorAxis::Ew)
    } else {
        None
    }
}

/// A corridor chokepoint has exactly two walkable neighbours, and they are
/// opposite: a north-south one has walls left and right and open tiles
/// above and below, an east-west one the other way round; and every tile
/// with exactly two opposite walkable neighbours is one.
pub proof fn lemma_chokepoint_has_two_opposite_neighbours(m: &MazeData, x: int, y: int)
    ensures
        chokepoint_axis(m, x, y) == Some(DoorAxis::Ns) <==> (m.is_open(x, y - 1) && m.is_open(x, y + 1)
            && !m.is_open(x - 1, y) && !m.is_open(x + 1, y)),
        chokepoint_axis(m, x, y) == Some(DoorAxis::Ew) <==> (m.is_open(x - 1, y) && m.is_open(x + 1, y)
            && !m.is_open(x, y - 1) && !m.is_open(x, y + 1)),
        chokepoint_axis(m, x, y) is None <==> !((m.is_open(x, y - 1) && m.is_open(x, y + 1) && !m.is_open(
            x - 1,
            y,
        ) && !m.is_open(x + 1, y)) || (m.is_open(x - 1, y) && m.is_open(x + 1, y) && !m.is_open(x, y - 1)
            && !m.is_open(x, y + 1))),
{
}

/// The door search only ever picks a corridor chokepoint: the chosen tile is
/// walkable, and its two walkable neighbours are opposite, along the axis
/// it reports, the other two being walls.
pub proof fn lemma_picked_door_is_chokepoint(
    m: &MazeData,
    d: Seq<i32>,
    exit_d: int,
    t: (u32, u32),
    axis: DoorAxis,
    dd: i32,
    x: int,
    y: int,
)
    requires
        door_best_so_far(m, d, exit_d, Some((t, axis, dd)), x, y),
    ensures
        m.is_open(t.0 as int, t.1 as int),
        axis == DoorAxis::Ns ==> m.is_open(t.0 as int, t.1 - 1) && m.is_open(t.0 as int, t.1 + 1)
            && !m.is_open(t.0 - 1, t.1 as int) && !m.is_open(t.0 + 1, t.1 as int),
        axis == DoorAxis::Ew ==> m.is_open(t.0 - 1, t.1 as int) && m.is_open(t.0 + 1, t.1 as int)
            && !m.is_open(t.0 as int, t.1 - 1) && !m.is_open(t.0 as int, t.1 + 1),
{
    lemma_chokepoint_has_two_opposite_neighbours(m, t.0 as int, t.1 as int);
}

/// Tile `(x, y)` may hold the locked door: an interior walkable chokepoint
/// at least 10 steps from the spawn and at least 6 steps before the exit.
pub open spec fn door_candidate(m: &MazeData, d: Seq<i32>, exit_d: int, x: int, y: int) -> bool {
    &&& m.interior(x, y)
    &&& m.is_open(x, y)
    &&& 10 <= d[m.idx(x, y)] <= exit_d - 6
    &&& chokepoint_axis(m, x, y) is Some
}

/// Tile `(ax, ay)` comes before tile `(bx, by)` in row-major scan order.
pub open spec fn scan_before(ax: int, ay: int, bx: int, by: int) -> bool {
    ay < by || (ay == by && ax < bx)
}

/// `best` is the answer of the door search over the tiles scanned before
/// `(x, y)`: the first candidate of greatest distance, or none.
pub open spec fn door_best_so_far(
    m: &MazeData,
    d: Seq<i32>,
    exit_d: int,
    best: Option<((u32, u32), DoorAxis, i32)>,
    x: int,
    y: int,
) -> bool {
    match best {
        None => forall|cx: int, cy: int|
            #![trigger d[m.idx(cx, cy)]]
            scan_before(cx, cy, x, y) ==> !door_candidate(m, d, exit_d, cx, cy),
        Some((t, axis, dd)) => {
            &&& door_candidate(m, d, exit_d, t.0 as int, t.1 as int)
            &&& chokepoint_axis(m, t.0 as int, t.1 as int) == Some(axis)
            &&& dd == d[m.idx(t.0 as int, t.1 as int)]
            &&& scan_before(t.0 as int, t.1 as int, x, y)
            &&& forall|cx: int, cy: int|
                #![trigger d[m.idx(cx, cy)]]
                scan_before(cx, cy, x, y) && door_candidate(m, d, exit_d, cx, cy) ==> {
                    &&& d[m.idx(cx, cy)] <= dd
                    &&& scan_before(cx, cy, t.0 as int, t.1 as int) ==> d[m.idx(cx, cy)] < dd
                }
        },
    }
}

/// The door search has one answer: two results that both meet
/// `door_best_so_far` over the whole grid are equal.
pub proof fn lemma_door_best_unique(
    m: &MazeData,
    d: Seq<i32>,
    exit_d: int,
    r1: Option<((u32, u32), DoorAxis, i32)>,
    r2: Option<((u32, u32), DoorAxis, i32)>,
)
    requires
        door_best_so_far(m, d, exit_d, r1, 0, m.h() - 1),
        door_best_so_far(m, d, exit_d, r2, 0, m.h() - 1),
    ensures
        r1 == r2,
{
    match (r1, r2) {
        (Some((t1, a1, d1)), Some((t2, a2, d2))) => {
            let _ = d[m.idx(t1.0 as int, t1.1 as int)];
            let _ = d[m.idx(t2.0 as int, t2.1 as int)];
            assert(d1 == d2);
            if t1 != t2 {
                assert(scan_before(t1.0 as int, t1.1 as int, t2.0 as int, t2.1 as int) || scan_before(
                    t2.0 as int,
                    t2.1 as int,
                    t1.0 as int,
                    t1.1 as int,
                ));
            }
        },
        (Some((t1, a1, d1)), None) => {
            let _ = d[m.idx(t1.0 as int, t1.1 as int)];
        },
        (None, Some((t2, a2, d2))) => {
            let _ = d[m.idx(t2.0 as int, t2.1 as int)];
        },
        (None, None) => {},
    }
}

/// Tile `(x, y)` is an interior walkable tile whose distance lies in
/// `[min_d, max_d]`.
pub open spec fn in_dist_range(m: &MazeData, d: Seq<i32>, min_d: int, max_d: int, x: int, y: int) -> bool {
    &&& m.interior(x, y)
    &&& m.is_open(x, y)
    &&& min_d <= d[m.idx(x, y)] <= max_d
}

/// `c` lists, in scan order and once each, exactly the tiles scanned before
/// `(x, y)` that satisfy `in_dist_range`.
pub open spec fn range_list_so_far(
    m: &MazeData,
    d: Seq<i32>,
    min_d: int,
    max_d: int,
    c: Seq<(u32, u32)>,
    x: int,
    y: int,
) -> bool {
    &&& forall|i: int|
        #![trigger c[i]]
        0 <= i < c.len() ==> in_dist_range(m, d, min_d, max_d, c[i].0 as int, c[i].1 as int)
            && scan_before(c[i].0 as int, c[i].1 as int, x, y)
    &&& forall|i: int, j: int|
        #![trigger c[i], c[j]]
        0 <= i < j < c.len() ==> scan_before(
            c[i].0 as int,
            c[i].1 as int,
            c[j].0 as int,
            c[j].1 as int,
        )
    &&& forall|cx: int, cy: int|
        #![trigger d[m.idx(cx, cy)]]
        scan_before(cx, cy, x, y) && in_dist_range(m, d, min_d, max_d, cx, cy) ==> exists|i: int|
            0 <= i < c.len() && #[trigger] c[i] == (cx as u32, cy as u32)
}

/// The tiles listed by `tiles_in_dist_range` before tile `(x, y)`: interior
/// tiles of rows `1..y` and of row `y` left of `x`, in row-major order, that
/// satisfy `in_dist_range`.
pub open spec fn cands_before(m: &MazeData, d: Seq<i32>, min_d: int, max_d: int, y: int, x: int) -> Seq<
    (u32, u32),
>
    decreases y, x,
{
    if x <= 1 {
        if y <= 1 {
            Seq::empty()
        } else {
            cands_before(m, d, min_d, max_d, y - 1, m.w() - 1)
        }
    } else {
        let prev = cands_before(m, d, min_d, max_d, y, x - 1);
        if in_dist_range(m, d, min_d, max_d, x - 1, y) {
            prev.push(((x - 1) as u32, y as u32))
        } else {
            prev
        }
    }
}

/// All interior walkable tiles whose distance lies in `[min_d, max_d]`, in
/// row-major order.
pub open spec fn dist_candidates(m: &MazeData, d: Seq<i32>, min_d: int, max_d: int) -> Seq<(u32, u32)> {
    cands_before(m, d, min_d, max_d, m.h() - 1, 1)
}

/// Outcome and next generator state of a random pick among the candidates
/// from state `g`: `None` (and no draw) when there is none.
pub open spec fn tile_pick(m: &MazeData, d: Seq<i32>, min_d: int, max_d: int, g: StdRng) -> (Option<
    (u32, u32),
>, StdRng) {
    let c = dist_candidates(m, d, min_d, max_d);
    if c.len() == 0 {
        (None, g)
    } else {
        let (k, g1) = gen_index(g, c.len() as usize, usize::BITS);
        (Some(c[k as int]), g1)
    }
}

impl MazeData {
    /// Tile of world position `(wx, wz)`: the nearest tile centre, or `None`
    /// when that tile lies outside the grid.
    pub fn maze_world_to_tile(&self, wx: i32, wz: i32) -> (r: Option<(u32, u32)>)
        requires
            self.wf(),
        ensures
            ({
                let tx = round_div(wx - self.origin_x, self.tile_size as int);
                let ty = round_div(wz - self.origin_z, self.tile_size as int);
                match r {
                    Some(t) => t.0 == tx && t.1 == ty && self.in_bounds(tx, ty),
                    None => !self.in_bounds(tx, ty),
                }
            }),
    {
        let (tx, ty) = self.world_to_tile_coords(wx, wz);
        if tx < 0 || ty < 0 || tx >= self.tiles_w as i64 || ty >= self.tiles_h as i64 {
            return None;
        }
        Some((tx as u32, ty as u32))
    }

    /// Nearest tile coordinates of world position `(wx, wz)`, inside the grid
    /// or not.
    pub fn world_to_tile_coords(&self, wx: i32, wz: i32) -> (r: (i64, i64))
        requires
            self.wf(),
        ensures
            r.0 == round_div(wx - self.origin_x, self.tile_size as int),
            r.1 == round_div(wz - self.origin_z, self.tile_size as int),
            -0x1_0000_0000 <= r.0 <= 0x1_0000_0000,
            -0x1_0000_0000 <= r.1 <= 0x1_0000_0000,
    {
        let ts = self.tile_size as i64;
        let nx = wx as i64 - self.origin_x as i64;
        let nz = wz as i64 - self.origin_z as i64;
        let tx = if nx >= 0 {
            (2 * nx + ts) / (2 * ts)
        } else {
            let mx: i64 = 0 - nx;
            0 - ((2 * mx + ts) / (2 * ts))
        };
        let tz = if nz >= 0 {
            (2 * nz + ts) / (2 * ts)
        } else {
            let mz: i64 = 0 - nz;
            0 - ((2 * mz + ts) / (2 * ts))
        };
        proof {
            Self::lemma_round_div_magnitude(nx as int, ts as int);
            Self::lemma_round_div_magnitude(nz as int, ts as int);
        }
        (tx, tz)
    }

    /// A rounded quotient by a positive divisor is no farther from zero
    /// than the dividend, and on the same side of it.
    pub proof fn lemma_round_div_magnitude(n: int, q: int)
        requires
            1 <= q,
        ensures
            n >= 0 ==> 0 <= round_div(n, q) <= n,
            n < 0 ==> n <= round_div(n, q) <= 0,
    {
        if n >= 0 {
            assert(0 <= (2 * n + q) / (2 * q) <= n) by (nonlinear_arith)
                requires
                    0 <= n,
                    1 <= q,
            ;
        } else {
            assert(0 <= (-2 * n + q) / (2 * q) <= -n) by (nonlinear_arith)
                requires
                    n < 0,
                    1 <= q,
            ;
        }
    }

    fn chokepoint_axis_at(&self, x: u32, y: u32) -> (r: Option<DoorAxis>)
        requires
            self.wf(),
            self.interior(x as int, y as int),
        ensures
            r == chokepoint_axis(self, x as int, y as int),
    {
        let open_l = self.maze_is_open(x - 1, y);
        let open_r = self.maze_is_open(x + 1, y);
        let open_u = self.maze_is_open(x, y - 1);
        let open_d = self.maze_is_open(x, y + 1);
        if open_u && open_d && !open_l && !open_r {
            Some(DoorAxis::Ns)
        } else if open_l && open_r && !open_u && !open_d {
            Some(DoorAxis::Ew)
        } else {
            None
        }
    }

    /// Where to put the locked door for the exit: among the interior
    /// corridor chokepoints whose distance from the spawn lies in
    /// `[10, exit_d - 6]`, the first (in row-major order) of greatest
    /// distance, with its axis and distance. `None` when the exit is not
    /// reached from the spawn, is the spawn itself, or no tile qualifies.
    pub fn pick_locked_door_tile(&self, dist: &Vec<i32>, exit_tile: (u32, u32)) -> (r: Option<
        ((u32, u32), DoorAxis, i32),
    >)
        requires
            self.wf(),
            dist@.len() >= self.n(),
            exit_tile.0 < self.tiles_w,
            exit_tile.1 < self.tiles_h,
        ensures
            ({
                let exit_d = dist@[self.idx(exit_tile.0 as int, exit_tile.1 as int)] as int;
                &&& exit_d <= 0 ==> r is None
                &&& exit_d > 0 ==> door_best_so_far(
                    self,
                    dist@,
                    exit_d,
                    r,
                    0,
                    self.h() - 1,
                )
                &&& r is None <==> (exit_d <= 0 || forall|cx: int, cy: int|
                    #![trigger dist@[self.idx(cx, cy)]]
                    !door_candidate(self, dist@, exit_d, cx, cy))
            }),
    {
        let ei = self.cell_idx(exit_tile.0, exit_tile.1);
        let exit_d = dist[ei];
        if exit_d <= 0 {
            return None;
        }
        let ghost ed = exit_d as int;
        let mut best: Option<((u32, u32), DoorAxis, i32)> = None;
        let mut y: u32 = 1;
        while y < self.tiles_h - 1
            invariant
                self.wf(),
                dist@.len() >= self.n(),
                ed == exit_d,
                exit_d > 0,
                1 <= y,
                y <= self.tiles_h - 1 || y == 1,
                door_best_so_far(self, dist@, ed, best, 0, y as int),
            decreases self.tiles_h - y,
        {
            let mut x: u32 = 1;
            while x < self.tiles_w - 1
                invariant
                    self.wf(),
                    dist@.len() >= self.n(),
                    ed == exit_d,
                    exit_d > 0,
                    1 <= y < self.tiles_h - 1,
                    1 <= x,
                    x <= self.tiles_w - 1 || x == 1,
                    door_best_so_far(self, dist@, ed, best, x as int, y as int),
                decreases self.tiles_w - x,
            {
                let ghost old_best = best;
                proof {
                    lemma_cell_index_bounds(self.w(), self.h(), x as int, y as int);
                }
                if self.maze_is_open(x, y) {
                    let d = dist[self.cell_idx(x, y)];
                    if d >= 10 && d <= exit_d - 6 {
                        let axis = self.chokepoint_axis_at(x, y);
                        match axis {
                            Some(a) => {
                                match best {
                                    None => {
                                        best = Some(((x, y), a, d));
                                    },
                                    Some((_, _, bd)) => {
                                        if d > bd {
                                            best = Some(((x, y), a, d));
                                        }
                                    },
                                }
                            },
                            None => {},
                        }
                    }
                }
                proof {
                    self.lemma_door_step(dist@, ed, old_best, best, x as int, y as int);
                }
                x = x + 1;
            }
            proof {
                self.lemma_door_row_end(dist@, ed, best, x as int, y as int);
            }
            y = y + 1;
        }
        proof {
            self.lemma_door_scan_end(dist@, ed, best, y as int);
        }
        best
    }

    proof fn lemma_door_step(
        &self,
        d: Seq<i32>,
        ed: int,
        old_best: Option<((u32, u32), DoorAxis, i32)>,
        best: Option<((u32, u32), DoorAxis, i32)>,
        x: int,
        y: int,
    )
        requires
            self.wf(),
            d.len() >= self.n(),
            1 <= x < self.w() - 1,
            1 <= y < self.h() - 1,
            door_best_so_far(self, d, ed, old_best, x, y),
            door_candidate(self, d, ed, x, y) ==> match old_best {
                None => best == Some(
                    ((x as u32, y as u32), chokepoint_axis(self, x, y).unwrap(), d[self.idx(x, y)]),
                ),
                Some((_, _, bd)) => if d[self.idx(x, y)] > bd {
                    best == Some(
                        (
                            (x as u32, y as u32),
                            chokepoint_axis(self, x, y).unwrap(),
                            d[self.idx(x, y)],
                        ),
                    )
                } else {
                    best == old_best
                },
            },
            !door_candidate(self, d, ed, x, y) ==> best == old_best,
        ensures
            door_best_so_far(self, d, ed, best, x + 1, y),
    {
        assert forall|cx: int, cy: int| scan_before(cx, cy, x + 1, y) implies (scan_before(
            cx,
            cy,
            x,
            y,
        ) || (cx == x && cy == y)) by {}
    }

    proof fn lemma_door_row_end(
        &self,
        d: Seq<i32>,
        ed: int,
        best: Option<((u32, u32), DoorAxis, i32)>,
        x: int,
        y: int,
    )
        requires
            self.wf(),
            x >= self.w() - 1,
            door_best_so_far(self, d, ed, best, x, y),
        ensures
            door_best_so_far(self, d, ed, best, 0, y + 1),
    {
        assert forall|cx: int, cy: int|
            scan_before(cx, cy, 0, y + 1) && door_candidate(self, d, ed, cx, cy) implies scan_before(
            cx,
            cy,
            x,
            y,
        ) by {}
    }

    proof fn lemma_door_scan_end(
        &self,
        d: Seq<i32>,
        ed: int,
        best: Option<((u32, u32), DoorAxis, i32)>,
        y: int,
    )
        requires
            self.wf(),
            y >= self.h() - 1,
            door_best_so_far(self, d, ed, best, 0, y),
        ensures
            door_best_so_far(self, d, ed, best, 0, self.h() - 1),
            best is None <==> forall|cx: int, cy: int|
                #![trigger d[self.idx(cx, cy)]]
                !door_candidate(self, d, ed, cx, cy),
    {
        assert forall|cx: int, cy: int| door_candidate(self, d, ed, cx, cy) implies scan_before(
            cx,
            cy,
            0,
            self.h() - 1,
        ) by {}
        if best is None {
            assert forall|cx: int, cy: int| !door_candidate(self, d, ed, cx, cy) by {
                if door_candidate(self, d, ed, cx, cy) {
                    assert(d[self.idx(cx, cy)] >= 10);
                }
            }
        }
    }
}


/// Outcome and next generator state of up to `n` attempts from state `g`:
/// each attempt draws a column in `1..w-1`, then a row in `1..h-1`, and
/// stops at the first walkable tile.
pub open spec fn open_draws(m: &MazeData, g: StdRng, n: nat) -> (Option<(u32, u32)>, StdRng)
    decreases n,
{
    if n == 0 {
        (None, g)
    } else {
        let (x, g1) = gen_below(g, 1, (m.tiles_w - 1) as u32);
        let (y, g2) = gen_below(g1, 1, (m.tiles_h - 1) as u32);
        if m.is_open(x as int, y as int) {
            (Some((x, y)), g2)
        } else {
            open_draws(m, g2, (n - 1) as nat)
        }
    }
}

/// World position and next generator state of one random walkable tile
/// draw from state `g` (2000 attempts, the fallback position if all fail).
pub open spec fn walkable_world_draw(m: &MazeData, g: StdRng) -> ((i32, i32), StdRng) {
    let (t, g1) = open_draws(m, g, 2000);
    match t {
        Some(t) => ((m.world_x(t.0 as int) as i32, m.world_z(t.1 as int) as i32), g1),
        None => (fallback_world(), g1),
    }
}

/// The first `n` world positions drawn from state `g`, in order, and the
/// generator state after them.
pub open spec fn world_samples(m: &MazeData, g: StdRng, n: nat) -> (Seq<(i32, i32)>, StdRng)
    decreases n,
{
    if n == 0 {
        (Seq::empty(), g)
    } else {
        let (s, g1) = world_samples(m, g, (n - 1) as nat);
        let (p, g2) = walkable_world_draw(m, g1);
        (s.push(p), g2)
    }
}

/// `draws` are the interior tiles drawn by `random_walkable_tile` and `r`
/// its outcome: the last draw, the first walkable one, or `None` after 2000
/// draws that all hit walls.
pub open spec fn first_open_draw(m: &MazeData, draws: Seq<(u32, u32)>, r: Option<(u32, u32)>) -> bool {
    &&& forall|i: int|
        0 <= i < draws.len() ==> m.interior((#[trigger] draws[i]).0 as int, draws[i].1 as int)
    &&& match r {
        Some(t) => {
            &&& draws.len() >= 1
            &&& draws.last() == t
            &&& m.is_open(t.0 as int, t.1 as int)
            &&& forall|i: int|
                0 <= i < draws.len() - 1 ==> !m.is_open(
                    (#[trigger] draws[i]).0 as int,
                    draws[i].1 as int,
                )
        },
        None => {
            &&& draws.len() == 2000
            &&& forall|i: int|
                0 <= i < draws.len() ==> !m.is_open((#[trigger] draws[i]).0 as int, draws[i].1 as int)
        },
    }
}

/// World position returned when no walkable tile was found.
pub open spec fn fallback_world() -> (i32, i32) {
    (0, 10)
}

/// `p` is the world position of the centre of an interior walkable tile.
pub open spec fn is_walkable_center(m: &MazeData, p: (i32, i32)) -> bool {
    exists|x: int, y: int|
        #![trigger m.world_x(x), m.world_z(y)]
        m.interior(x, y) && m.is_open(x, y) && p.0 == m.world_x(x) && p.1 == m.world_z(y)
}

/// Squared distance between two points of the ground plane.
pub open spec fn dist2(a: (i32, i32), b: (i32, i32)) -> int {
    (a.0 - b.0) * (a.0 - b.0) + (a.1 - b.1) * (a.1 - b.1)
}

/// `r` is the first point of `points` that is farthest from `from`, or the
/// origin when `points` is empty.
pub open spec fn is_first_farthest(points: Seq<(i32, i32)>, from: (i32, i32), r: (i32, i32)) -> bool {
    if points.len() == 0 {
        r == (0i32, 0i32)
    } else {
        exists|k: int|
            #![trigger points[k]]
            0 <= k < points.len() && points[k] == r && (forall|i: int|
                0 <= i < points.len() ==> dist2(#[trigger] points[i], from) <= dist2(r, from)) && (
            forall|i: int| 0 <= i < k ==> dist2(#[trigger] points[i], from) < dist2(r, from))
    }
}

/// The best point and its squared distance after scanning `s` from the
/// front, keeping a point only when it is strictly farther than the best so
/// far (which starts as the origin at distance -1).
pub open spec fn farthest_scan(s: Seq<(i32, i32)>, from: (i32, i32)) -> ((i32, i32), int)
    decreases s.len(),
{
    if s.len() == 0 {
        ((0i32, 0i32), -1)
    } else {
        let prev = farthest_scan(s.drop_last(), from);
        let p = s.last();
        if dist2(p, from) > prev.1 {
            (p, dist2(p, from))
        } else {
            prev
        }
    }
}

/// The first point of `points` farthest from `from` (the origin if there is
/// none).
pub fn farthest_point(points: &Vec<(i32, i32)>, from: (i32, i32)) -> (r: (i32, i32))
    ensures
        is_first_farthest(points@, from, r),
        r == farthest_scan(points@, from).0,
{
    let mut best: (i32, i32) = (0, 0);
    let mut best_d: i128 = -1;
    let mut best_k: usize = 0;
    let mut i: usize = 0;
    while i < points.len()
        invariant
            i <= points.len(),
            (best, best_d as int) == farthest_scan(points@.take(i as int), from),
            i == 0 ==> best == (0i32, 0i32) && best_d == -1,
            i > 0 ==> {
                &&& best_k < i
                &&& points@[best_k as int] == best
                &&& best_d == dist2(best, from)
                &&& forall|j: int| 0 <= j < i ==> dist2(#[trigger] points@[j], from) <= best_d
                &&& forall|j: int| 0 <= j < best_k ==> dist2(#[trigger] points@[j], from) < best_d
            },
        decreases points.len() - i,
    {
        let p = points[i];
        let dx = p.0 as i128 - from.0 as i128;
        let dz = p.1 as i128 - from.1 as i128;
        proof {
            assert(0 <= dx * dx <= 0x1_0000_0000_0000_0000) by (nonlinear_arith)
                requires
                    -0x1_0000_0000 <= dx <= 0x1_0000_0000,
            ;
            assert(0 <= dz * dz <= 0x1_0000_0000_0000_0000) by (nonlinear_arith)
                requires
                    -0x1_0000_0000 <= dz <= 0x1_0000_0000,
            ;
        }
        let d = dx * dx + dz * dz;
        assert(d == dist2(p, from));
        assert(points@.take(i + 1).drop_last() =~= points@.take(i as int));
        assert(points@.take(i + 1).last() == p);
        if d > best_d {
            best_d = d;
            best = p;
            best_k = i;
        }
        i = i + 1;
    }
    assert(points@.take(points.len() as int) =~= points@);
    if points.len() > 0 {
        assert(points@[best_k as int] == best);
    }
    best
}

impl MazeData {
    /// The interior walkable tiles whose distance lies in `[min_d, max_d]`,
    /// once each, in row-major order.
    pub fn tiles_in_dist_range(&self, dist: &Vec<i32>, min_d: i32, max_d: i32) -> (c: Vec<
        (u32, u32),
    >)
        requires
            self.wf(),
            dist@.len() >= self.n(),
        ensures
            range_list_so_far(self, dist@, min_d as int, max_d as int, c@, 0, self.h() - 1),
            c@ == dist_candidates(self, dist@, min_d as int, max_d as int),
    {
        let mut c: Vec<(u32, u32)> = Vec::new();
        let mut y: u32 = 1;
        while y < self.tiles_h - 1
            invariant
                c@ == cands_before(self, dist@, min_d as int, max_d as int, y as int, 1),
                self.wf(),
                dist@.len() >= self.n(),
                1 <= y,
                y <= self.tiles_h - 1 || y == 1,
                range_list_so_far(self, dist@, min_d as int, max_d as int, c@, 0, y as int),
            decreases self.tiles_h - y,
        {
            let mut x: u32 = 1;
            while x < self.tiles_w - 1
                invariant
                    c@ == cands_before(self, dist@, min_d as int, max_d as int, y as int, x as int),
                    self.wf(),
                    dist@.len() >= self.n(),
                    1 <= y < self.tiles_h - 1,
                    1 <= x,
                    x <= self.tiles_w - 1 || x == 1,
                    range_list_so_far(self, dist@, min_d as int, max_d as int, c@, x as int, y as int),
                decreases self.tiles_w - x,
            {
                let ghost old_c = c@;
                if self.maze_is_open(x, y) {
                    let d = dist[self.cell_idx(x, y)];
                    if d >= min_d && d <= max_d {
                        c.push((x, y));
                    }
                }
                proof {
                    self.lemma_range_step(dist@, min_d as int, max_d as int, old_c, c@, x as int, y as int);
                    lemma_cell_index_bounds(self.w(), self.h(), x as int, y as int);
                    assert(c@ =~= cands_before(self, dist@, min_d as int, max_d as int, y as int, x + 1));
                }
                x = x + 1;
            }
            assert(cands_before(self, dist@, min_d as int, max_d as int, y + 1, 1) == cands_before(
                self,
                dist@,
                min_d as int,
                max_d as int,
                y as int,
                self.w() - 1,
            ));
            assert(c@ == cands_before(self, dist@, min_d as int, max_d as int, y as int, self.w() - 1));
            proof {
                assert forall|cx: int, cy: int|
                    #![trigger dist@[self.idx(cx, cy)]]
                    scan_before(cx, cy, 0, y + 1) && in_dist_range(self, dist@, min_d as int, max_d as int, cx, cy)
                    implies exists|i: int| 0 <= i < c@.len() && #[trigger] c@[i] == (cx as u32, cy as u32) by {
                    assert(scan_before(cx, cy, x as int, y as int));
                }
                assert forall|i: int| 0 <= i < c@.len() implies scan_before(
                    #[trigger] c@[i].0 as int,
                    c@[i].1 as int,
                    0,
                    y + 1,
                ) by {
                    assert(scan_before(c@[i].0 as int, c@[i].1 as int, x as int, y as int));
                }
            }
            y = y + 1;
        }
        assert(c@ == cands_before(self, dist@, min_d as int, max_d as int, self.h() - 1, 1));
        c
    }

    proof fn lemma_range_step(
        &self,
        d: Seq<i32>,
        min_d: int,
        max_d: int,
        c1: Seq<(u32, u32)>,
        c2: Seq<(u32, u32)>,
        x: int,
        y: int,
    )
        requires
            self.wf(),
            d.len() >= self.n(),
            1 <= x < self.w() - 1,
            1 <= y < self.h() - 1,
            range_list_so_far(self, d, min_d, max_d, c1, x, y),
            in_dist_range(self, d, min_d, max_d, x, y) ==> c2 == c1.push((x as u32, y as u32)),
            !in_dist_range(self, d, min_d, max_d, x, y) ==> c2 == c1,
        ensures
            range_list_so_far(self, d, min_d, max_d, c2, x + 1, y),
    {
        assert forall|i: int| 0 <= i < c2.len() implies in_dist_range(
            self,
            d,
            min_d,
            max_d,
            #[trigger] c2[i].0 as int,
            c2[i].1 as int,
        ) && scan_before(c2[i].0 as int, c2[i].1 as int, x + 1, y) by {
            if i < c1.len() {
                assert(c2[i] == c1[i]);
            }
        }
        assert forall|i: int, j: int| 0 <= i < j < c2.len() implies scan_before(
            #[trigger] c2[i].0 as int,
            c2[i].1 as int,
            #[trigger] c2[j].0 as int,
            c2[j].1 as int,
        ) by {
            assert(c2[i] == c1[i]);
            if j < c1.len() {
                assert(c2[j] == c1[j]);
            } else {
                assert(scan_before(c1[i].0 as int, c1[i].1 as int, x, y));
            }
        }
        assert forall|cx: int, cy: int|
            #![trigger d[self.idx(cx, cy)]]
            scan_before(cx, cy, x + 1, y) && in_dist_range(self, d, min_d, max_d, cx, cy) implies exists|i: int|
            0 <= i < c2.len() && #[trigger] c2[i] == (cx as u32, cy as u32) by {
            if scan_before(cx, cy, x, y) {
                let i = choose|i: int| 0 <= i < c1.len() && #[trigger] c1[i] == (cx as u32, cy as u32);
                assert(c2[i] == c1[i]);
            } else {
                assert(cx == x && cy == y);
                assert(c2[c1.len() as int] == (cx as u32, cy as u32));
            }
        }
    }

    /// A tile drawn at random among the interior walkable tiles whose
    /// distance lies in `[min_d, max_d]`; `None` when there is none.
    pub fn pick_tile_with_dist_range(
        &self,
        dist: &Vec<i32>,
        min_d: i32,
        max_d: i32,
        rng: &mut StdRng,
    ) -> (r: Option<(u32, u32)>)
        requires
            self.wf(),
            dist@.len() >= self.n(),
        ensures
            r is None <==> forall|cx: int, cy: int|
                #![trigger dist@[self.idx(cx, cy)]]
                !in_dist_range(self, dist@, min_d as int, max_d as int, cx, cy),
            r matches Some(t) ==> in_dist_range(self, dist@, min_d as int, max_d as int, t.0 as int, t.1 as int),
            r is None ==> *final(rng) == *old(rng),
            (r, *final(rng)) == tile_pick(self, dist@, min_d as int, max_d as int, *old(rng)),
    {
        let candidates = self.tiles_in_dist_range(dist, min_d, max_d);
        if candidates.len() == 0 {
            proof {
                assert forall|cx: int, cy: int|
                    #![trigger dist@[self.idx(cx, cy)]]
                    !in_dist_range(self, dist@, min_d as int, max_d as int, cx, cy) by {
                    if in_dist_range(self, dist@, min_d as int, max_d as int, cx, cy) {
                        assert(scan_before(cx, cy, 0, self.h() - 1));
                    }
                }
            }
            return None;
        }
        let k = draw_index(rng, candidates.len());
        let t = candidates[k];
        proof {
            let _ = candidates@[k as int];
            if forall|cx: int, cy: int|
                #![trigger dist@[self.idx(cx, cy)]]
                !in_dist_range(self, dist@, min_d as int, max_d as int, cx, cy) {
                assert(!in_dist_range(self, dist@, min_d as int, max_d as int, t.0 as int, t.1 as int));
                let _ = dist@[self.idx(t.0 as int, t.1 as int)];
            }
        }
        Some(t)
    }

    /// A tile drawn at random among the interior tiles, kept if walkable;
    /// up to 2000 draws, `None` if none of them is walkable.
    pub fn random_walkable_tile(&self, rng: &mut StdRng) -> (r: Option<(u32, u32)>)
        requires
            self.wf(),
            self.tiles_w >= 3,
            self.tiles_h >= 3,
        ensures
            r matches Some(t) ==> self.interior(t.0 as int, t.1 as int) && self.is_open(
                t.0 as int,
                t.1 as int,
            ),
            exists|draws: Seq<(u32, u32)>| #[trigger] first_open_draw(self, draws, r),
            r is None ==> exists|x: int, y: int|
                #![trigger self.idx(x, y)]
                self.interior(x, y) && !self.is_open(x, y),
            (r, *final(rng)) == open_draws(self, *old(rng), 2000),
    {
        let ghost mut draws: Seq<(u32, u32)> = Seq::empty();
        let ghost g0 = *rng;
        let mut tries: u32 = 0;
        while tries < 2000
            invariant
                open_draws(self, *rng, (2000 - tries) as nat) == open_draws(self, g0, 2000),
                g0 == *old(rng),
                self.wf(),
                self.tiles_w >= 3,
                self.tiles_h >= 3,
                draws.len() == tries,
                tries <= 2000,
                forall|i: int|
                    0 <= i < draws.len() ==> self.interior(
                        (#[trigger] draws[i]).0 as int,
                        draws[i].1 as int,
                    ) && !self.is_open(draws[i].0 as int, draws[i].1 as int),
            decreases 2000 - tries,
        {
            let ghost g_before = *rng;
            let x = draw_below(rng, 1, self.tiles_w - 1);
            let y = draw_below(rng, 1, self.tiles_h - 1);
            assert(open_draws(self, g_before, (2000 - tries) as nat) == if self.is_open(x as int, y as int) {
                (Some((x, y)), *rng)
            } else {
                open_draws(self, *rng, (2000 - tries - 1) as nat)
            });
            let ghost prev = draws;
            proof {
                draws = draws.push((x, y));
            }
            if self.maze_is_open(x, y) {
                assert(first_open_draw(self, draws, Some((x, y)))) by {
                    assert forall|i: int| 0 <= i < draws.len() - 1 implies !self.is_open(
                        (#[trigger] draws[i]).0 as int,
                        draws[i].1 as int,
                    ) by {
                        assert(draws[i] == prev[i]);
                    }
                    assert forall|i: int| 0 <= i < draws.len() implies self.interior(
                        (#[trigger] draws[i]).0 as int,
                        draws[i].1 as int,
                    ) by {
                        if i < prev.len() {
                            assert(draws[i] == prev[i]);
                        }
                    }
                }
                return Some((x, y));
            }
            assert forall|i: int| 0 <= i < draws.len() implies self.interior(
                (#[trigger] draws[i]).0 as int,
                draws[i].1 as int,
            ) && !self.is_open(draws[i].0 as int, draws[i].1 as int) by {
                if i < prev.len() {
                    assert(draws[i] == prev[i]);
                }
            }
            tries = tries + 1;
        }
        proof {
            assert(first_open_draw(self, draws, None));
            let d0 = draws[0];
            assert(self.interior(d0.0 as int, d0.1 as int) && !self.is_open(d0.0 as int, d0.1 as int));
            let _ = self.idx(d0.0 as int, d0.1 as int);
        }
        None
    }

    /// World position of a random interior walkable tile (see
    /// `random_walkable_tile`), or `(0, 10)` when none was drawn.
    pub fn random_walkable_tile_world(&self, rng: &mut StdRng) -> (p: (i32, i32))
        requires
            self.wf(),
            self.tiles_w >= 3,
            self.tiles_h >= 3,
        ensures
            is_walkable_center(self, p) || p == fallback_world(),
            (p, *final(rng)) == walkable_world_draw(self, *old(rng)),
    {
        match self.random_walkable_tile(rng) {
            Some(t) => {
                let p = self.maze_tile_to_world_center(t.0, t.1);
                assert(self.interior(t.0 as int, t.1 as int) && self.is_open(t.0 as int, t.1 as int)
                    && p.0 == self.world_x(t.0 as int) && p.1 == self.world_z(t.1 as int));
                p
            },
            None => (0, 10),
        }
    }

    /// Exit position: of 600 random walkable tile positions, the first one
    /// farthest from `spawn_world`.
    pub fn pick_exit_world(&self, spawn_world: (i32, i32), rng: &mut StdRng) -> (p: (i32, i32))
        requires
            self.wf(),
            self.tiles_w >= 3,
            self.tiles_h >= 3,
        ensures
            is_walkable_center(self, p) || p == fallback_world(),
            exit_world_choice(self, spawn_world, p),
            p == farthest_scan(world_samples(self, *old(rng), 600).0, spawn_world).0,
            *final(rng) == world_samples(self, *old(rng), 600).1,
    {
        let mut samples: Vec<(i32, i32)> = Vec::new();
        let ghost g0 = *rng;
        let mut i: u32 = 0;
        while i < 600
            invariant
                (samples@, *rng) == world_samples(self, g0, i as nat),
                g0 == *old(rng),
                self.wf(),
                self.tiles_w >= 3,
                self.tiles_h >= 3,
                samples@.len() == i,
                i <= 600,
                forall|j: int|
                    0 <= j < samples@.len() ==> is_walkable_center(self, #[trigger] samples@[j])
                        || samples@[j] == fallback_world(),
            decreases 600 - i,
        {
            let p = self.random_walkable_tile_world(rng);
            samples.push(p);
            i = i + 1;
        }
        let p = farthest_point(&samples, spawn_world);
        proof {
            let k = choose|k: int|
                #![trigger samples@[k]]
                0 <= k < samples@.len() && samples@[k] == p && (forall|i: int|
                    0 <= i < samples@.len() ==> dist2(#[trigger] samples@[i], spawn_world) <= dist2(p, spawn_world))
                    && (forall|i: int| 0 <= i < k ==> dist2(#[trigger] samples@[i], spawn_world) < dist2(p, spawn_world));
            assert(is_walkable_center(self, samples@[k]) || samples@[k] == fallback_world());
        }
        p
    }
}


/// `p` is a possible exit for spawn position `spawn`: the first farthest
/// of 600 draws, each the centre of an interior walkable tile or the
/// fallback position.
pub open spec fn exit_world_choice(m: &MazeData, spawn: (i32, i32), p: (i32, i32)) -> bool {
    exists|samples: Seq<(i32, i32)>|
        {
            &&& samples.len() == 600
            &&& forall|i: int|
                0 <= i < samples.len() ==> is_walkable_center(m, #[trigger] samples[i])
                    || samples[i] == fallback_world()
            &&& #[trigger] is_first_farthest(samples, spawn, p)
        }
}

/// Tile `(x, y)` can hold the player spawn: interior and walkable.
pub open spec fn spawn_walkable(m: &MazeData, x: int, y: int) -> bool {
    m.interior(x, y) && m.is_open(x, y)
}

pub open spec fn abs_int(v: int) -> int {
    if v < 0 {
        -v
    } else {
        v
    }
}

/// Ring (Chebyshev distance) of offset `(dx, dy)` around the preferred tile.
pub open spec fn ring_radius(dx: int, dy: int) -> int {
    if abs_int(dx) >= abs_int(dy) {
        abs_int(dx)
    } else {
        abs_int(dy)
    }
}

/// Place of offset `(dx, dy)` in the scan of its ring: the top and bottom
/// rows column by column (top before bottom), then the left and right
/// columns row by row (left before right), corners only in the rows.
pub open spec fn ring_slot(dx: int, dy: int) -> int {
    let r = ring_radius(dx, dy);
    if r == 0 {
        0
    } else if dy == -r {
        2 * (dx + r)
    } else if dy == r {
        2 * (dx + r) + 1
    } else if dx == -r {
        2 * (2 * r + 1) + 2 * (dy + r - 1)
    } else {
        2 * (2 * r + 1) + 2 * (dy + r - 1) + 1
    }
}

/// Offset `(dx, dy)` is scanned before the point of the scan at ring `r`,
/// slot `slot`.
pub open spec fn ring_scanned_before(dx: int, dy: int, r: int, slot: int) -> bool {
    ring_radius(dx, dy) < r || (ring_radius(dx, dy) == r && ring_slot(dx, dy) < slot)
}

/// `r` is the outcome of the spawn search around preferred tile `(tx0, ty0)`:
/// the first interior walkable tile in ring order within the searched
/// rings, or `None` when there is none.
pub open spec fn is_spawn_choice(m: &MazeData, tx0: int, ty0: int, r: Option<(u32, u32)>) -> bool {
    match r {
        Some(t) => {
            &&& spawn_walkable(m, t.0 as int, t.1 as int)
            &&& ring_radius(t.0 - tx0, t.1 - ty0) <= spawn_search_radius()
            &&& forall|x: int, y: int|
                #![trigger spawn_walkable(m, x, y)]
                ring_scanned_before(
                    x - tx0,
                    y - ty0,
                    ring_radius(t.0 - tx0, t.1 - ty0),
                    ring_slot(t.0 - tx0, t.1 - ty0),
                ) ==> !spawn_walkable(m, x, y)
        },
        None => forall|x: int, y: int|
            #![trigger spawn_walkable(m, x, y)]
            ring_radius(x - tx0, y - ty0) <= spawn_search_radius() ==> !spawn_walkable(m, x, y),
    }
}

/// `p` is the spawn position found around preferred tile `(tx0, ty0)`: the
/// centre of the tile the ring search chose, or the world origin when it
/// found none.
pub open spec fn spawn_world_choice(m: &MazeData, tx0: int, ty0: int, p: (i32, i32)) -> bool {
    exists|r: Option<(u32, u32)>|
        #![trigger is_spawn_choice(m, tx0, ty0, r)]
        is_spawn_choice(m, tx0, ty0, r) && match r {
            Some(t) => p.0 == m.world_x(t.0 as int) && p.1 == m.world_z(t.1 as int),
            None => p == (0i32, 0i32),
        }
}

/// Distinct offsets in the ring search differ in ring or in slot.
pub proof fn lemma_ring_position_unique(dx1: int, dy1: int, dx2: int, dy2: int)
    requires
        ring_radius(dx1, dy1) == ring_radius(dx2, dy2),
        ring_slot(dx1, dy1) == ring_slot(dx2, dy2),
    ensures
        dx1 == dx2,
        dy1 == dy2,
{
}

/// The spawn search has one outcome: two results that both meet
/// `is_spawn_choice` are equal.
pub proof fn lemma_spawn_choice_unique(m: &MazeData, tx0: int, ty0: int, r1: Option<(u32, u32)>, r2: Option<(u32, u32)>)
    requires
        is_spawn_choice(m, tx0, ty0, r1),
        is_spawn_choice(m, tx0, ty0, r2),
    ensures
        r1 == r2,
{
    match (r1, r2) {
        (Some(t1), Some(t2)) => {
            assert(spawn_walkable(m, t1.0 as int, t1.1 as int));
            assert(spawn_walkable(m, t2.0 as int, t2.1 as int));
            if t1 != t2 {
                let (dx1, dy1) = (t1.0 - tx0, t1.1 - ty0);
                let (dx2, dy2) = (t2.0 - tx0, t2.1 - ty0);
                if ring_radius(dx1, dy1) == ring_radius(dx2, dy2) && ring_slot(dx1, dy1) == ring_slot(dx2, dy2) {
                    lemma_ring_position_unique(dx1, dy1, dx2, dy2);
                }
            }
        },
        (Some(t1), None) => {
            assert(spawn_walkable(m, t1.0 as int, t1.1 as int));
        },
        (None, Some(t2)) => {
            assert(spawn_walkable(m, t2.0 as int, t2.1 as int));
        },
        (None, None) => {},
    }
}

/// The spawn position found around a preferred tile is unique.
pub proof fn lemma_spawn_world_unique(m: &MazeData, tx0: int, ty0: int, p1: (i32, i32), p2: (i32, i32))
    requires
        spawn_world_choice(m, tx0, ty0, p1),
        spawn_world_choice(m, tx0, ty0, p2),
    ensures
        p1 == p2,
{
    let r1 = choose|r: Option<(u32, u32)>|
        #![trigger is_spawn_choice(m, tx0, ty0, r)]
        is_spawn_choice(m, tx0, ty0, r) && match r {
            Some(t) => p1.0 == m.world_x(t.0 as int) && p1.1 == m.world_z(t.1 as int),
            None => p1 == (0i32, 0i32),
        };
    let r2 = choose|r: Option<(u32, u32)>|
        #![trigger is_spawn_choice(m, tx0, ty0, r)]
        is_spawn_choice(m, tx0, ty0, r) && match r {
            Some(t) => p2.0 == m.world_x(t.0 as int) && p2.1 == m.world_z(t.1 as int),
            None => p2 == (0i32, 0i32),
        };
    lemma_spawn_choice_unique(m, tx0, ty0, r1, r2);
}

/// Largest ring searched around the preferred spawn tile.
pub open spec fn spawn_search_radius() -> int {
    119
}

impl MazeData {
    fn spawn_walkable_at(&self, x: i32, y: i32) -> (b: bool)
        requires
            self.wf(),
        ensures
            b == spawn_walkable(self, x as int, y as int),
    {
        if x < 1 || y < 1 || x as i64 >= self.tiles_w as i64 - 1 || y as i64 >= self.tiles_h as i64
            - 1 {
            false
        } else {
            self.maze_is_open(x as u32, y as u32)
        }
    }

    /// Spawn tile nearest the preferred tile `(tx0, ty0)`: the preferred tile
    /// itself if it is an interior walkable tile, otherwise the first such
    /// tile in the ring-by-ring scan up to ring 119; `None` if there is none.
    pub fn pick_spawn_tile(&self, tx0: i32, ty0: i32) -> (r: Option<(u32, u32)>)
        requires
            self.wf(),
            i32::MIN + 120 <= tx0 <= i32::MAX - 120,
            i32::MIN + 120 <= ty0 <= i32::MAX - 120,
        ensures
            is_spawn_choice(self, tx0 as int, ty0 as int, r),
    {
        if self.spawn_walkable_at(tx0, ty0) {
            return Some((tx0 as u32, ty0 as u32));
        }
        let mut r: i32 = 1;
        while r < 120
            invariant
                self.wf(),
                i32::MIN + 120 <= tx0 <= i32::MAX - 120,
                i32::MIN + 120 <= ty0 <= i32::MAX - 120,
                1 <= r <= 120,
                forall|x: int, y: int|
                    #![trigger spawn_walkable(self, x, y)]
                    ring_radius(x - tx0, y - ty0) < r ==> !spawn_walkable(self, x, y),
            decreases 120 - r,
        {
            let mut dx: i32 = -r;
            while dx <= r
                invariant
                    self.wf(),
                    i32::MIN + 120 <= tx0 <= i32::MAX - 120,
                    i32::MIN + 120 <= ty0 <= i32::MAX - 120,
                    1 <= r < 120,
                    -r <= dx <= r + 1,
                    forall|x: int, y: int|
                        #![trigger spawn_walkable(self, x, y)]
                        ring_scanned_before(x - tx0, y - ty0, r as int, 2 * (dx + r)) ==> !spawn_walkable(
                            self,
                            x,
                            y,
                        ),
                decreases r + 1 - dx,
            {
                let x = tx0 + dx;
                let y1 = ty0 - r;
                if self.spawn_walkable_at(x, y1) {
                    assert(ring_radius(dx as int, -r) == r && ring_slot(dx as int, -r) == 2 * (dx
                        + r));
                    return Some((x as u32, y1 as u32));
                }
                let y2 = ty0 + r;
                if self.spawn_walkable_at(x, y2) {
                    assert(ring_radius(dx as int, r as int) == r && ring_slot(dx as int, r as int)
                        == 2 * (dx + r) + 1);
                    assert forall|cx: int, cy: int|
                        #![trigger spawn_walkable(self, cx, cy)]
                        ring_scanned_before(cx - tx0, cy - ty0, r as int, 2 * (dx + r) + 1)
                            implies !spawn_walkable(self, cx, cy) by {
                        if !ring_scanned_before(cx - tx0, cy - ty0, r as int, 2 * (dx + r)) {
                            assert(cx == x && cy == y1);
                        }
                    }
                    return Some((x as u32, y2 as u32));
                }
                assert forall|cx: int, cy: int|
                    #![trigger spawn_walkable(self, cx, cy)]
                    ring_scanned_before(cx - tx0, cy - ty0, r as int, 2 * (dx + 1 + r))
                        implies !spawn_walkable(self, cx, cy) by {
                    if !ring_scanned_before(cx - tx0, cy - ty0, r as int, 2 * (dx + r)) {
                        assert((cx == x && cy == y1) || (cx == x && cy == y2));
                    }
                }
                dx = dx + 1;
            }
            let mut dy: i32 = -r + 1;
            while dy <= r - 1
                invariant
                    self.wf(),
                    i32::MIN + 120 <= tx0 <= i32::MAX - 120,
                    i32::MIN + 120 <= ty0 <= i32::MAX - 120,
                    1 <= r < 120,
                    -r + 1 <= dy <= r,
                    forall|x: int, y: int|
                        #![trigger spawn_walkable(self, x, y)]
                        ring_scanned_before(
                            x - tx0,
                            y - ty0,
                            r as int,
                            2 * (2 * r + 1) + 2 * (dy + r - 1),
                        ) ==> !spawn_walkable(self, x, y),
                decreases r - dy,
            {
                let y = ty0 + dy;
                let x1 = tx0 - r;
                if self.spawn_walkable_at(x1, y) {
                    assert(ring_radius(-r as int, dy as int) == r && ring_slot(-r as int, dy as int)
                        == 2 * (2 * r + 1) + 2 * (dy + r - 1));
                    return Some((x1 as u32, y as u32));
                }
                let x2 = tx0 + r;
                if self.spawn_walkable_at(x2, y) {
                    assert(ring_radius(r as int, dy as int) == r && ring_slot(r as int, dy as int)
                        == 2 * (2 * r + 1) + 2 * (dy + r - 1) + 1);
                    assert forall|cx: int, cy: int|
                        #![trigger spawn_walkable(self, cx, cy)]
                        ring_scanned_before(
                            cx - tx0,
                            cy - ty0,
                            r as int,
                            2 * (2 * r + 1) + 2 * (dy + r - 1) + 1,
                        ) implies !spawn_walkable(self, cx, cy) by {
                        if !ring_scanned_before(
                            cx - tx0,
                            cy - ty0,
                            r as int,
                            2 * (2 * r + 1) + 2 * (dy + r - 1),
                        ) {
                            assert(cx == x1 && cy == y);
                        }
                    }
                    return Some((x2 as u32, y as u32));
                }
                assert forall|cx: int, cy: int|
                    #![trigger spawn_walkable(self, cx, cy)]
                    ring_scanned_before(
                        cx - tx0,
                        cy - ty0,
                        r as int,
                        2 * (2 * r + 1) + 2 * (dy + 1 + r - 1),
                    ) implies !spawn_walkable(self, cx, cy) by {
                    if !ring_scanned_before(
                        cx - tx0,
                        cy - ty0,
                        r as int,
                        2 * (2 * r + 1) + 2 * (dy + r - 1),
                    ) {
                        assert((cx == x1 && cy == y) || (cx == x2 && cy == y));
                    }
                }
                dy = dy + 1;
            }
            assert forall|cx: int, cy: int|
                #![trigger spawn_walkable(self, cx, cy)]
                ring_radius(cx - tx0, cy - ty0) < r + 1 implies !spawn_walkable(self, cx, cy) by {
                if ring_radius(cx - tx0, cy - ty0) == r {
                    assert(ring_slot(cx - tx0, cy - ty0) < 8 * r);
                    assert(ring_scanned_before(
                        cx - tx0,
                        cy - ty0,
                        r as int,
                        2 * (2 * r + 1) + 2 * (dy + r - 1),
                    ));
                }
            }
            r = r + 1;
        }
        None
    }

    /// World position of the spawn tile chosen by `pick_spawn_tile`, or the
    /// world origin when none was found.
    pub fn pick_spawn_world(&self, tx0: i32, ty0: i32) -> (p: (i32, i32))
        requires
            self.wf(),
            i32::MIN + 120 <= tx0 <= i32::MAX - 120,
            i32::MIN + 120 <= ty0 <= i32::MAX - 120,
        ensures
            is_walkable_center(self, p) || p == (0i32, 0i32),
            spawn_world_choice(self, tx0 as int, ty0 as int, p),
    {
        let choice = self.pick_spawn_tile(tx0, ty0);
        assert(is_spawn_choice(self, tx0 as int, ty0 as int, choice));
        match choice {
            Some(t) => {
                let p = self.maze_tile_to_world_center(t.0, t.1);
                assert(self.interior(t.0 as int, t.1 as int) && self.is_open(t.0 as int, t.1 as int)
                    && p.0 == self.world_x(t.0 as int) && p.1 == self.world_z(t.1 as int));
                p
            },
            None => (0, 0),
        }
    }
}


impl MazeData {
    /// A maze over `tiles` whose grid is centred on the world origin: tile
    /// `(0, 0)` lies at `-(tiles_w - 1) * tile_size / 2` on both axes.
    pub fn centered(tiles_w: u32, tiles_h: u32, tiles: Vec<bool>, tile_size: i32) -> (m: MazeData)
        requires
            1 <= tiles_w,
            1 <= tiles_h,
            tiles_w * tiles_h <= MAX_CELLS,
            tiles@.len() == tiles_w * tiles_h,
            1 <= tile_size,
            (tiles_w - 1) * tile_size <= 2 * WORLD_LIMIT,
            (tiles_h - 1) * tile_size <= 2 * WORLD_LIMIT,
            ((tiles_w - 1) * tile_size) % 2 == 0,
            ((tiles_h - 1) * tile_size) % 2 == 0,
        ensures
            m.wf(),
            m.tiles_w == tiles_w,
            m.tiles_h == tiles_h,
            m.tiles@ == tiles@,
            m.tile_size == tile_size,
            2 * m.origin_x == -((tiles_w - 1) * tile_size),
            2 * m.origin_z == -((tiles_h - 1) * tile_size),
    {
        let span_x = (tiles_w as i64 - 1) * tile_size as i64;
        let span_z = (tiles_h as i64 - 1) * tile_size as i64;
        proof {
            assert(0 <= (tiles_w - 1) * tile_size) by (nonlinear_arith)
                requires
                    1 <= tiles_w,
                    1 <= tile_size,
            ;
            assert(0 <= (tiles_h - 1) * tile_size) by (nonlinear_arith)
                requires
                    1 <= tiles_h,
                    1 <= tile_size,
            ;
        }
        let origin_x = (0 - span_x / 2) as i32;
        let origin_z = (0 - span_z / 2) as i32;
        MazeData { tiles_w, tiles_h, tiles, tile_size, origin_x, origin_z }
    }
}


/// Centres of the wall tiles before tile `(x, y)` in row-major order.
pub open spec fn walls_before(m: &MazeData, y: int, x: int) -> Seq<(i32, i32)>
    decreases y, x,
{
    if x <= 0 {
        if y <= 0 {
            Seq::empty()
        } else {
            walls_before(m, y - 1, m.w())
        }
    } else {
        let prev = walls_before(m, y, x - 1);
        if m.tiles@[m.idx(x - 1, y)] {
            prev.push((m.world_x(x - 1) as i32, m.world_z(y) as i32))
        } else {
            prev
        }
    }
}

impl MazeData {
    /// World positions of the centres of all wall tiles, row by row: where
    /// the wall blocks stand.
    pub fn wall_centers(&self) -> (v: Vec<(i32, i32)>)
        requires
            self.wf(),
        ensures
            v@ == walls_before(self, self.h(), 0),
    {
        let mut v: Vec<(i32, i32)> = Vec::new();
        let mut y: u32 = 0;
        while y < self.tiles_h
            invariant
                self.wf(),
                y <= self.tiles_h,
                v@ == walls_before(self, y as int, 0),
            decreases self.tiles_h - y,
        {
            let mut x: u32 = 0;
            while x < self.tiles_w
                invariant
                    self.wf(),
                    y < self.tiles_h,
                    x <= self.tiles_w,
                    v@ == walls_before(self, y as int, x as int),
                decreases self.tiles_w - x,
            {
                if !self.maze_is_open(x, y) {
                    let p = self.maze_tile_to_world_center(x, y);
                    v.push(p);
                }
                proof {
                    lemma_cell_index_bounds(self.w(), self.h(), x as int, y as int);
                }
                x = x + 1;
            }
            assert(walls_before(self, y + 1, 0) == walls_before(self, y as int, self.w()));
            y = y + 1;
        }
        v
    }
}


/// Some walk leads from tile `a` to tile `b`.
pub open spec fn reachable(m: &MazeData, a: (int, int), b: (int, int)) -> bool {
    exists|p: Seq<(int, int)>| #[trigger] is_walk(m, p) && p[0] == a && p[p.len() - 1] == b
}

/// The walkable tiles form one region: every walkable tile can be reached
/// from every other.
pub open spec fn open_connected(m: &MazeData) -> bool {
    forall|ax: int, ay: int, bx: int, by: int|
        #![trigger m.is_open(ax, ay), m.is_open(bx, by)]
        m.is_open(ax, ay) && m.is_open(bx, by) ==> reachable(m, (ax, ay), (bx, by))
}

/// A walkable tile reaches itself.
pub proof fn lemma_reach_self(m: &MazeData, a: (int, int))
    requires
        m.is_open(a.0, a.1),
    ensures
        reachable(m, a, a),
{
    let p = seq![a];
    assert(is_walk(m, p));
}

/// A walk extends by one step to a walkable neighbour of its end.
pub proof fn lemma_reach_step(m: &MazeData, a: (int, int), b: (int, int), c: (int, int))
    requires
        reachable(m, a, b),
        adjacent(b.0, b.1, c.0, c.1),
        m.is_open(c.0, c.1),
    ensures
        reachable(m, a, c),
{
    let p = choose|p: Seq<(int, int)>| #[trigger] is_walk(m, p) && p[0] == a && p[p.len() - 1] == b;
    let q = p.push(c);
    assert forall|i: int| 0 <= i < q.len() implies #[trigger] m.is_open(q[i].0, q[i].1) by {
        if i < p.len() {
            assert(q[i] == p[i]);
        }
    }
    assert forall|i: int| 0 <= i < q.len() - 1 implies adjacent(
        #[trigger] q[i].0,
        q[i].1,
        q[i + 1].0,
        q[i + 1].1,
    ) by {
        if i < p.len() - 1 {
            assert(q[i] == p[i] && q[i + 1] == p[i + 1]);
            assert(adjacent(p[i].0, p[i].1, p[i + 1].0, p[i + 1].1));
        }
    }
    assert(is_walk(m, q));
}

/// Walks read backwards are walks.
pub proof fn lemma_reach_sym(m: &MazeData, a: (int, int), b: (int, int))
    requires
        reachable(m, a, b),
    ensures
        reachable(m, b, a),
{
    let p = choose|p: Seq<(int, int)>| #[trigger] is_walk(m, p) && p[0] == a && p[p.len() - 1] == b;
    let n = p.len() as int;
    let q = Seq::new(p.len(), |i: int| p[n - 1 - i]);
    assert forall|i: int| 0 <= i < q.len() implies #[trigger] m.is_open(q[i].0, q[i].1) by {
        assert(m.is_open(p[n - 1 - i].0, p[n - 1 - i].1));
    }
    assert forall|i: int| 0 <= i < q.len() - 1 implies adjacent(
        #[trigger] q[i].0,
        q[i].1,
        q[i + 1].0,
        q[i + 1].1,
    ) by {
        let j = n - 2 - i;
        assert(adjacent(p[j].0, p[j].1, p[j + 1].0, p[j + 1].1));
    }
    assert(is_walk(m, q));
    assert(q[0] == b && q[q.len() - 1] == a);
}

/// Two walks that meet join into one.
pub proof fn lemma_reach_trans(m: &MazeData, a: (int, int), b: (int, int), c: (int, int))
    requires
        reachable(m, a, b),
        reachable(m, b, c),
    ensures
        reachable(m, a, c),
{
    let p = choose|p: Seq<(int, int)>| #[trigger] is_walk(m, p) && p[0] == a && p[p.len() - 1] == b;
    let q = choose|q: Seq<(int, int)>| #[trigger] is_walk(m, q) && q[0] == b && q[q.len() - 1] == c;
    let np = p.len() as int;
    let r = p + q.subrange(1, q.len() as int);
    assert forall|i: int| 0 <= i < r.len() implies #[trigger] m.is_open(r[i].0, r[i].1) by {
        if i < np {
            assert(r[i] == p[i]);
        } else {
            assert(r[i] == q[i - np + 1]);
        }
    }
    assert forall|i: int| 0 <= i < r.len() - 1 implies adjacent(
        #[trigger] r[i].0,
        r[i].1,
        r[i + 1].0,
        r[i + 1].1,
    ) by {
        if i < np - 1 {
            assert(r[i] == p[i] && r[i + 1] == p[i + 1]);
            assert(adjacent(p[i].0, p[i].1, p[i + 1].0, p[i + 1].1));
        } else if i == np - 1 {
            assert(r[i] == q[0] && r[i + 1] == q[1]);
            assert(adjacent(q[0].0, q[0].1, q[1].0, q[1].1));
        } else {
            let j = i - np + 1;
            assert(r[i] == q[j] && r[i + 1] == q[j + 1]);
            assert(adjacent(q[j].0, q[j].1, q[j + 1].0, q[j + 1].1));
        }
    }
    assert(is_walk(m, r));
    if q.len() == 1 {
        assert(r[r.len() - 1] == p[np - 1]);
    } else {
        assert(r[r.len() - 1] == q[q.len() - 1]);
    }
}

/// In a maze whose walkable tiles form one region, a breadth-first search
/// from a walkable tile reaches every walkable tile: no walkable tile is
/// cut off from the start.
pub proof fn lemma_connected_search_reaches_all(m: &MazeData, start: (u32, u32), d: Seq<i32>)
    requires
        m.wf(),
        open_connected(m),
        is_bfs_distance(m, start, d),
        m.is_open(start.0 as int, start.1 as int),
    ensures
        forall|x: int, y: int| #[trigger] m.is_open(x, y) ==> d[m.idx(x, y)] >= 0,
{
    assert forall|x: int, y: int| #[trigger] m.is_open(x, y) implies d[m.idx(x, y)] >= 0 by {
        let s = (start.0 as int, start.1 as int);
        assert(m.is_open(s.0, s.1) && m.is_open(x, y));
        assert(reachable(m, s, (x, y)));
        let p = choose|p: Seq<(int, int)>|
            #[trigger] is_walk(m, p) && p[0] == s && p[p.len() - 1] == (x, y);
        lemma_bfs_distance_at_most_walk(m, start, d, p);
    }
}


/// Every tile with `x0 <= x <= x1` and `y0 <= y <= y1` is walkable.
pub open spec fn rect_open(m: &MazeData, x0: int, y0: int, x1: int, y1: int) -> bool {
    forall|x: int, y: int| x0 <= x <= x1 && y0 <= y <= y1 ==> #[trigger] m.is_open(x, y)
}

proof fn lemma_row_reach(m: &MazeData, y: int, xa: int, xb: int, x0: int, x1: int)
    requires
        rect_open(m, x0, y, x1, y),
        x0 <= xa <= x1,
        x0 <= xb <= x1,
    ensures
        reachable(m, (xa, y), (xb, y)),
    decreases if xb >= xa { xb - xa } else { xa - xb },
{
    if xa == xb {
        assert(m.is_open(xa, y));
        lemma_reach_self(m, (xa, y));
    } else {
        let xp = if xb > xa { xb - 1 } else { xb + 1 };
        lemma_row_reach(m, y, xa, xp, x0, x1);
        assert(m.is_open(xb, y));
        lemma_reach_step(m, (xa, y), (xp, y), (xb, y));
    }
}

proof fn lemma_col_reach(m: &MazeData, x: int, ya: int, yb: int, y0: int, y1: int)
    requires
        rect_open(m, x, y0, x, y1),
        y0 <= ya <= y1,
        y0 <= yb <= y1,
    ensures
        reachable(m, (x, ya), (x, yb)),
    decreases if yb >= ya { yb - ya } else { ya - yb },
{
    if ya == yb {
        assert(m.is_open(x, ya));
        lemma_reach_self(m, (x, ya));
    } else {
        let yp = if yb > ya { yb - 1 } else { yb + 1 };
        lemma_col_reach(m, x, ya, yp, y0, y1);
        assert(m.is_open(x, yb));
        lemma_reach_step(m, (x, ya), (x, yp), (x, yb));
    }
}

/// Any two tiles of a walkable rectangle reach each other.
pub proof fn lemma_rect_reach(m: &MazeData, x0: int, y0: int, x1: int, y1: int, a: (int, int), b: (int, int))
    requires
        rect_open(m, x0, y0, x1, y1),
        x0 <= a.0 <= x1,
        y0 <= a.1 <= y1,
        x0 <= b.0 <= x1,
        y0 <= b.1 <= y1,
    ensures
        reachable(m, a, b),
{
    assert(rect_open(m, x0, a.1, x1, a.1));
    lemma_row_reach(m, a.1, a.0, b.0, x0, x1);
    assert(rect_open(m, b.0, y0, b.0, y1));
    lemma_col_reach(m, b.0, a.1, b.1, y0, y1);
    lemma_reach_trans(m, a, (b.0, a.1), b);
}

} // verus!
