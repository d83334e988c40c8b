//! Warehouse grid graph: blocked cells, neighbourhoods and distances.
use crate::space_time::{CellID, spec_abs};
use std::collections::HashSet;
use vstd::prelude::*;

verus! {

broadcast use vstd::std_specs::hash::group_hash_axioms;

pub const GRID_WIDTH: u16 = 256u16;
pub const GRID_HEIGHT: u16 = 256u16;
pub const MAX_CELLS: usize = 65536usize;

/// Grid of `width x height` cells addressed row-major (`cell = y * width + x`).
#[derive(Debug)]
pub struct SpatialGraph {
    pub width: u16,
    pub height: u16,
    pub blocked: HashSet<CellID>,
    /// 4- or 8-connectivity.
    pub connectivity: u8,
}

pub open spec fn cell_x(g: &SpatialGraph, cell: int) -> int {
    cell % (g.width as int)
}

pub open spec fn cell_y(g: &SpatialGraph, cell: int) -> int {
    cell / (g.width as int)
}

/// The cell lies inside the grid and is not blocked.
pub open spec fn traversable(g: &SpatialGraph, cell: CellID) -> bool {
    !g.blocked@.contains(cell) && cell_y(g, cell as int) < g.height
}

/// Neighbour offsets, clockwise from north.
pub open spec fn direction_offsets(connectivity: u8) -> Seq<(int, int)> {
    if connectivity == 8 {
        seq![(0, -1), (1, -1), (1, 0), (1, 1), (0, 1), (-1, 1), (-1, 0), (-1, -1)]
    } else {
        seq![(0, -1), (1, 0), (0, 1), (-1, 0)]
    }
}

/// Traversable in-grid neighbours reached through the first `k` offsets, in order.
pub open spec fn neighbors_upto(g: &SpatialGraph, cell: CellID, k: int) -> Seq<CellID>
    decreases k,
{
    if k <= 0 {
        Seq::empty()
    } else {
        let rest = neighbors_upto(g, cell, k - 1);
        let d = direction_offsets(g.connectivity)[k - 1];
        let nx = cell_x(g, cell as int) + d.0;
        let ny = cell_y(g, cell as int) + d.1;
        let n = (ny * g.width + nx) as u16;
        if 0 <= nx < g.width && 0 <= ny < g.height && traversable(g, n) {
            rest.push(n)
        } else {
            rest
        }
    }
}

/// Traversable neighbours of a cell, clockwise from north.
pub open spec fn spec_neighbors(g: &SpatialGraph, cell: CellID) -> Seq<CellID> {
    neighbors_upto(g, cell, direction_offsets(g.connectivity).len() as int)
}

/// Manhattan distance between two cells, truncated to 16 bits.
pub open spec fn spec_manhattan(g: &SpatialGraph, a: CellID, b: CellID) -> u16 {
    (spec_abs(cell_x(g, a as int) - cell_x(g, b as int)) + spec_abs(
        cell_y(g, a as int) - cell_y(g, b as int),
    )) as u16
}

impl SpatialGraph {
    pub fn new(width: u16, height: u16) -> (g: Self)
        ensures
            g.width == width,
            g.height == height,
            g.blocked@ == Set::<CellID>::empty(),
            g.connectivity == 4,
    {
        SpatialGraph { width, height, blocked: HashSet::new(), connectivity: 4 }
    }

    /// Builds the graph of a warehouse map: its size, its blocked cells and its
    /// connectivity (4 when the map gives none).
    pub fn from_map(
        width: u16,
        height: u16,
        blocked_cells: &Vec<CellID>,
        connectivity: Option<u8>,
    ) -> (g: Self)
        ensures
            g.width == width,
            g.height == height,
            g.blocked@ == blocked_cells@.to_set(),
            g.connectivity == (match connectivity {
                Some(c) => c,
                None => 4u8,
            }),
    {
        let mut graph = Self::new(width, height);
        graph.connectivity = match connectivity {
            Some(c) => c,
            None => 4,
        };
        let mut i: usize = 0;
        while i < blocked_cells.len()
            invariant
                i <= blocked_cells@.len(),
                graph.width == width,
                graph.height == height,
                graph.connectivity == (match connectivity {
                    Some(c) => c,
                    None => 4u8,
                }),
                graph.blocked@ == blocked_cells@.take(i as int).to_set(),
            decreases blocked_cells@.len() - i,
        {
            graph.blocked.insert(blocked_cells[i]);
            proof {
                assert(blocked_cells@.take(i + 1) =~= blocked_cells@.take(i as int).push(
                    blocked_cells@[i as int],
                ));
                blocked_cells@.take(i as int).lemma_push_to_set_commute(blocked_cells@[i as int]);
            }
            i = i + 1;
        }
        assert(blocked_cells@.take(blocked_cells@.len() as int) =~= blocked_cells@);
        graph
    }

    pub fn is_traversable(&self, cell: CellID) -> (r: bool)
        requires
            self.width > 0,
        ensures
            r == traversable(self, cell),
    {
        !self.blocked.contains(&cell) && self.cell_valid(cell)
    }

    fn cell_valid(&self, cell: CellID) -> (r: bool)
        requires
            self.width > 0,
        ensures
            r == (cell_y(self, cell as int) < self.height),
    {
        let x: u32 = cell as u32 % self.width as u32;
        let y: u32 = cell as u32 / self.width as u32;
        x < self.width as u32 && y < self.height as u32
    }

    /// Traversable neighbours (4- or 8-connected), clockwise from north.
    pub fn neighbors(&self, cell: CellID) -> (r: Vec<CellID>)
        requires
            self.width > 0,
        ensures
            r@ == spec_neighbors(self, cell),
    {
        let mut result: Vec<CellID> = Vec::new();
        let w: i32 = self.width as i32;
        let x: i32 = cell as i32 % w;
        let y: i32 = cell as i32 / w;
        let n_dirs: usize = if self.connectivity == 8 {
            8
        } else {
            4
        };
        proof {
            let c = cell as int;
            let wi = w as int;
            vstd::arithmetic::div_mod::lemma_fundamental_div_mod(c, wi);
            assert(y * w <= c) by (nonlinear_arith)
                requires
                    c == wi * (c / wi) + c % wi,
                    y as int == c / wi,
                    c % wi >= 0,
                    wi == w as int,
            ;
        }
        let mut k: usize = 0;
        while k < n_dirs
            invariant
                w == self.width,
                w > 0,
                x == cell_x(self, cell as int),
                y == cell_y(self, cell as int),
                0 <= x < w,
                0 <= y,
                y * w <= cell,
                n_dirs == direction_offsets(self.connectivity).len(),
                k <= n_dirs,
                result@ == neighbors_upto(self, cell, k as int),
            decreases n_dirs - k,
        {
            let (dx, dy): (i32, i32) = if self.connectivity == 8 {
                if k == 0 {
                    (0, -1)
                } else if k == 1 {
                    (1, -1)
                } else if k == 2 {
                    (1, 0)
                } else if k == 3 {
                    (1, 1)
                } else if k == 4 {
                    (0, 1)
                } else if k == 5 {
                    (-1, 1)
                } else if k == 6 {
                    (-1, 0)
                } else {
                    (-1, -1)
                }
            } else {
                if k == 0 {
                    (0, -1)
                } else if k == 1 {
                    (1, 0)
                } else if k == 2 {
                    (0, 1)
                } else {
                    (-1, 0)
                }
            };
            assert(direction_offsets(self.connectivity)[k as int] == (dx as int, dy as int));
            let nx: i32 = x + dx;
            let ny: i32 = y + dy;
            if nx >= 0 && nx < w && ny >= 0 && ny < self.height as i32 {
                assert(ny * w <= cell + 65535) by (nonlinear_arith)
                    requires
                        0 <= ny <= y + 1,
                        y * w <= cell,
                        0 < w <= 65535,
                ;
                let v: i32 = ny * w + nx;
                let n_cell: CellID = #[verifier::truncate] (v as CellID);
                if self.is_traversable(n_cell) {
                    result.push(n_cell);
                }
            }
            k = k + 1;
        }
        result
    }

    pub fn manhattan_distance(&self, a: CellID, b: CellID) -> (d: u16)
        requires
            self.width > 0,
        ensures
            d == spec_manhattan(self, a, b),
    {
        let (ax, ay) = self.coordinate(a);
        let (bx, by) = self.coordinate(b);
        let dx: i32 = if ax >= bx {
            ax as i32 - bx as i32
        } else {
            bx as i32 - ax as i32
        };
        let dy: i32 = if ay >= by {
            ay as i32 - by as i32
        } else {
            by as i32 - ay as i32
        };
        #[verifier::truncate]
        ((dx + dy) as u16)
    }

    pub fn coordinate(&self, cell: CellID) -> (r: (u16, u16))
        requires
            self.width > 0,
        ensures
            r.0 == cell_x(self, cell as int),
            r.1 == cell_y(self, cell as int),
    {
        let x: u16 = (cell as u32 % self.width as u32) as u16;
        let y: u16 = (cell as u32 / self.width as u32) as u16;
        (x, y)
    }

    pub fn cell_from_coord(&self, x: u16, y: u16) -> (c: CellID)
        ensures
            c == (y as int * self.width as int + x as int) as u16,
    {
        assert(y as int * self.width as int <= 65535 * 65535) by (nonlinear_arith)
            requires
                y <= 65535,
                self.width <= 65535,
        ;
        let v: u32 = y as u32 * self.width as u32 + x as u32;
        #[verifier::truncate]
        (v as CellID)
    }
}

/// Every neighbour is traversable.
pub proof fn lemma_neighbors_traversable(g: &SpatialGraph, cell: CellID, k: int, i: int)
    requires
        0 <= i < neighbors_upto(g, cell, k).len(),
    ensures
        traversable(g, neighbors_upto(g, cell, k)[i]),
    decreases k,
{
    if k > 0 {
        let rest = neighbors_upto(g, cell, k - 1);
        if i < rest.len() {
            lemma_neighbors_traversable(g, cell, k - 1, i);
        }
    }
}

/// At most `k` neighbours come from the first `k` offsets.
pub proof fn lemma_neighbors_len(g: &SpatialGraph, cell: CellID, k: int)
    requires
        k >= 0,
    ensures
        neighbors_upto(g, cell, k).len() <= k,
        direction_offsets(g.connectivity).len() <= 8,
    decreases k,
{
    if k > 0 {
        lemma_neighbors_len(g, cell, k - 1);
    }
}

/// In a grid whose cells all fit in a `CellID`, no cell is its own neighbour.
pub proof fn lemma_neighbor_not_self(g: &SpatialGraph, cell: CellID, k: int, i: int)
    requires
        g.width > 0,
        g.width * g.height <= 65536,
        0 <= k <= direction_offsets(g.connectivity).len(),
        0 <= i < neighbors_upto(g, cell, k).len(),
    ensures
        neighbors_upto(g, cell, k)[i] != cell,
    decreases k,
{
    if k > 0 {
        let rest = neighbors_upto(g, cell, k - 1);
        if i < rest.len() {
            lemma_neighbor_not_self(g, cell, k - 1, i);
        } else {
            let d = direction_offsets(g.connectivity)[k - 1];
            let w = g.width as int;
            let h = g.height as int;
            let x = cell_x(g, cell as int);
            let y = cell_y(g, cell as int);
            let nx = x + d.0;
            let ny = y + d.1;
            assert(d.0 != 0 || d.1 != 0);
            assert(0 <= nx < w && 0 <= ny < h);
            vstd::arithmetic::div_mod::lemma_fundamental_div_mod(cell as int, w);
            assert(ny * w + nx < 65536) by (nonlinear_arith)
                requires
                    0 <= nx < w,
                    0 <= ny < h,
                    w * h <= 65536,
            ;
            assert(0 <= ny * w + nx) by (nonlinear_arith)
                requires
                    0 <= nx,
                    0 <= ny,
                    0 < w,
            ;
            assert(ny * w + nx != y * w + x) by (nonlinear_arith)
                requires
                    0 <= nx < w,
                    0 <= x < w,
                    nx != x || ny != y,
            ;
        }
    }
}

/// The Manhattan distance is symmetric and zero from a cell to itself.
pub proof fn lemma_manhattan_symmetric(g: &SpatialGraph, a: CellID, b: CellID)
    ensures
        spec_manhattan(g, a, b) == spec_manhattan(g, b, a),
        spec_manhattan(g, a, a) == 0,
{
}

/// The cell at offset `d` from `cell`, when that spot is in the grid, has the
/// offset coordinates.
proof fn lemma_offset_cell(g: &SpatialGraph, cell: CellID, d: (int, int))
    requires
        g.width > 0,
        g.width * g.height <= 65536,
        0 <= cell_x(g, cell as int) + d.0 < g.width,
        0 <= cell_y(g, cell as int) + d.1 < g.height,
    ensures
        ({
            let nx = cell_x(g, cell as int) + d.0;
            let ny = cell_y(g, cell as int) + d.1;
            let n = (ny * g.width + nx) as u16;
            &&& n as int == ny * g.width + nx
            &&& cell_x(g, n as int) == nx
            &&& cell_y(g, n as int) == ny
        }),
{
    let w = g.width as int;
    let h = g.height as int;
    let nx = cell_x(g, cell as int) + d.0;
    let ny = cell_y(g, cell as int) + d.1;
    assert(0 <= ny * w + nx < w * h) by (nonlinear_arith)
        requires
            0 <= nx < w,
            0 <= ny < h,
    ;
    vstd::arithmetic::div_mod::lemma_fundamental_div_mod_converse(ny * w + nx, w, ny, nx);
}

/// Facts about the neighbours found through the first `k` offsets of a
/// 4-connected grid: each sits at one of those offsets, none repeats, and every
/// traversable spot at one of those offsets is found.
proof fn lemma_neighbors_upto_exact(g: &SpatialGraph, cell: CellID, k: int)
    requires
        g.width > 0,
        g.width * g.height <= 65536,
        g.connectivity != 8,
        0 <= k <= 4,
    ensures
        neighbors_upto(g, cell, k).len() <= k,
        neighbors_upto(g, cell, k).no_duplicates(),
        forall|i: int|
            0 <= i < neighbors_upto(g, cell, k).len() ==> exists|e: int|
                0 <= e < k && cell_x(g, #[trigger] neighbors_upto(g, cell, k)[i] as int) == cell_x(
                    g,
                    cell as int,
                ) + direction_offsets(g.connectivity)[e].0 && cell_y(
                    g,
                    neighbors_upto(g, cell, k)[i] as int,
                ) == cell_y(g, cell as int) + direction_offsets(g.connectivity)[e].1,
        forall|m: CellID|
            traversable(g, m) && (exists|e: int|
                0 <= e < k && cell_x(g, m as int) == cell_x(g, cell as int) + direction_offsets(
                    g.connectivity,
                )[e].0 && cell_y(g, m as int) == cell_y(g, cell as int) + direction_offsets(
                    g.connectivity,
                )[e].1) ==> #[trigger] neighbors_upto(g, cell, k).contains(m),
    decreases k,
{
    if k > 0 {
        lemma_neighbors_upto_exact(g, cell, k - 1);
        let rest = neighbors_upto(g, cell, k - 1);
        let offs = direction_offsets(g.connectivity);
        let d = offs[k - 1];
        let nx = cell_x(g, cell as int) + d.0;
        let ny = cell_y(g, cell as int) + d.1;
        let n = (ny * g.width + nx) as u16;
        let cur = neighbors_upto(g, cell, k);
        let w = g.width as int;
        if 0 <= nx < g.width && 0 <= ny < g.height && traversable(g, n) {
            lemma_offset_cell(g, cell, d);
            assert(cur == rest.push(n));
            assert forall|i: int| 0 <= i < rest.len() implies rest[i] != n by {
                let e = choose|e: int|
                    0 <= e < k - 1 && cell_x(g, #[trigger] rest[i] as int) == cell_x(g, cell as int)
                        + offs[e].0 && cell_y(g, rest[i] as int) == cell_y(g, cell as int) + offs[e].1;
                assert(offs[e] != offs[k - 1]);
            }
            assert forall|i: int, j: int| 0 <= i < cur.len() && 0 <= j < cur.len() && i != j implies cur[i]
                != cur[j] by {
                if i < rest.len() && j < rest.len() {
                    assert(rest[i] != rest[j]);
                }
            }
            assert forall|i: int| 0 <= i < cur.len() implies exists|e: int|
                0 <= e < k && cell_x(g, #[trigger] cur[i] as int) == cell_x(g, cell as int) + offs[e].0
                    && cell_y(g, cur[i] as int) == cell_y(g, cell as int) + offs[e].1 by {
                if i < rest.len() {
                    assert(cur[i] == rest[i]);
                } else {
                    assert(cur[i] == n);
                }
            }
        }
        assert forall|m: CellID|
            traversable(g, m) && (exists|e: int|
                0 <= e < k && cell_x(g, m as int) == cell_x(g, cell as int) + offs[e].0 && cell_y(
                    g,
                    m as int,
                ) == cell_y(g, cell as int) + offs[e].1) implies #[trigger] cur.contains(m) by {
            let e = choose|e: int|
                0 <= e < k && cell_x(g, m as int) == cell_x(g, cell as int) + offs[e].0 && cell_y(
                    g,
                    m as int,
                ) == cell_y(g, cell as int) + offs[e].1;
            if e < k - 1 {
                assert(rest.contains(m));
                let i = choose|i: int| 0 <= i < rest.len() && rest[i] == m;
                assert(cur[i] == m);
            } else {
                let mi = m as int;
                vstd::arithmetic::div_mod::lemma_fundamental_div_mod(mi, w);
                assert(mi == w * cell_y(g, mi) + cell_x(g, mi));
                assert(0 <= cell_x(g, mi) < w) by {
                    vstd::arithmetic::div_mod::lemma_mod_bound(mi, w);
                }
                assert(0 <= cell_y(g, mi)) by {
                    vstd::arithmetic::div_mod::lemma_div_pos_is_pos(mi, w);
                }
                assert(ny * w == w * ny) by (nonlinear_arith);
                assert(n == m);
                assert(cur[cur.len() - 1] == m);
            }
        }
    }
}

/// In a 4-connected grid the neighbours of a cell are exactly the traversable
/// cells one step away (no wrap-around between rows), with no repeats and at
/// most four of them.
pub proof fn lemma_neighbors_exact(g: &SpatialGraph, cell: CellID)
    requires
        g.width > 0,
        g.width * g.height <= 65536,
        g.connectivity != 8,
    ensures
        spec_neighbors(g, cell).len() <= 4,
        spec_neighbors(g, cell).no_duplicates(),
        forall|n: CellID| #[trigger]
            spec_neighbors(g, cell).contains(n) ==> traversable(g, n) && spec_abs(
                cell_x(g, n as int) - cell_x(g, cell as int),
            ) + spec_abs(cell_y(g, n as int) - cell_y(g, cell as int)) == 1,
        forall|m: CellID|
            traversable(g, m) && spec_abs(cell_x(g, m as int) - cell_x(g, cell as int)) + spec_abs(
                cell_y(g, m as int) - cell_y(g, cell as int),
            ) == 1 ==> #[trigger] spec_neighbors(g, cell).contains(m),
{
    lemma_neighbors_upto_exact(g, cell, 4);
    let ns = spec_neighbors(g, cell);
    let offs = direction_offsets(g.connectivity);
    assert forall|n: CellID| #[trigger] ns.contains(n) implies traversable(g, n) && spec_abs(
        cell_x(g, n as int) - cell_x(g, cell as int),
    ) + spec_abs(cell_y(g, n as int) - cell_y(g, cell as int)) == 1 by {
        let i = choose|i: int| 0 <= i < ns.len() && ns[i] == n;
        lemma_neighbors_traversable(g, cell, 4, i);
        assert(ns[i] == neighbors_upto(g, cell, 4)[i]);
    }
    assert forall|m: CellID|
        traversable(g, m) && spec_abs(cell_x(g, m as int) - cell_x(g, cell as int)) + spec_abs(
            cell_y(g, m as int) - cell_y(g, cell as int),
        ) == 1 implies #[trigger] ns.contains(m) by {
        let dx = cell_x(g, m as int) - cell_x(g, cell as int);
        let dy = cell_y(g, m as int) - cell_y(g, cell as int);
        let e: int = if dy == -1 {
            0
        } else if dx == 1 {
            1
        } else if dy == 1 {
            2
        } else {
            3
        };
        assert(0 <= e < 4 && dx == offs[e].0 && dy == offs[e].1);
    }
}

} // verus!
