//! Pull-over cells: where a yielding agent steps aside.
use crate::planner::graph::{cell_x, cell_y, spec_neighbors, traversable, SpatialGraph};
use crate::space_time::{CellID, Heading};
use vstd::prelude::*;

verus! {

/// Offsets of the two side cells, left then right of the direction of travel.
pub open spec fn side_offsets(heading: Heading) -> (((int, int), (int, int))) {
    match heading {
        Heading::N | Heading::S => ((-1, 0), (1, 0)),
        Heading::E | Heading::W => ((0, -1), (0, 1)),
    }
}

/// The cell at offset `d` from `current`, when it is in the grid and traversable.
pub open spec fn side_cell(g: &SpatialGraph, current: CellID, d: (int, int)) -> Option<CellID> {
    let nx = cell_x(g, current as int) + d.0;
    let ny = cell_y(g, current as int) + d.1;
    if 0 <= nx < g.width && 0 <= ny < g.height && traversable(g, (ny * g.width + nx) as u16) {
        Some((ny * g.width + nx) as u16)
    } else {
        None
    }
}

/// The first usable side cell, or none (a narrow corridor).
pub open spec fn spec_pullover(g: &SpatialGraph, current: CellID, heading: Heading) -> Option<
    CellID,
> {
    let (first, second) = side_offsets(heading);
    match side_cell(g, current, first) {
        Some(c) => Some(c),
        None => side_cell(g, current, second),
    }
}

fn try_side(graph: &SpatialGraph, cx: i32, cy: i32, dx: i32, dy: i32, current: CellID) -> (r: Option<CellID>)
    requires
        graph.width > 0,
        cx == cell_x(graph, current as int),
        cy == cell_y(graph, current as int),
        -1 <= dx <= 1,
        -1 <= dy <= 1,
    ensures
        r == side_cell(graph, current, (dx as int, dy as int)),
{
    let nx: i32 = cx + dx;
    let ny: i32 = cy + dy;
    if nx >= 0 && nx < graph.width as i32 && ny >= 0 && ny < graph.height as i32 {
        let side = graph.cell_from_coord(nx as u16, ny as u16);
        if graph.is_traversable(side) {
            return Some(side);
        }
    }
    None
}

/// A side cell next to `current`, across the direction of travel, that is in the
/// grid and traversable; none in a narrow corridor.
pub fn find_pullover_cell(current: CellID, heading: Heading, graph: &SpatialGraph) -> (r: Option<
    CellID,
>)
    requires
        graph.width > 0,
    ensures
        r == spec_pullover(graph, current, heading),
{
    let (cx, cy) = graph.coordinate(current);
    let cx: i32 = cx as i32;
    let cy: i32 = cy as i32;
    let ((dx1, dy1), (dx2, dy2)): ((i32, i32), (i32, i32)) = match heading {
        Heading::N | Heading::S => ((-1, 0), (1, 0)),
        Heading::E | Heading::W => ((0, -1), (0, 1)),
    };
    match try_side(graph, cx, cy, dx1, dy1, current) {
        Some(c) => Some(c),
        None => try_side(graph, cx, cy, dx2, dy2, current),
    }
}

/// A cell with three or more traversable neighbours.
pub fn is_intersection(cell: CellID, graph: &SpatialGraph) -> (r: bool)
    requires
        graph.width > 0,
    ensures
        r == (spec_neighbors(graph, cell).len() >= 3),
{
    graph.neighbors(cell).len() >= 3
}

/// Penalty of a pull-over candidate (lower is better): 100 at an intersection,
/// 10 at a dead end, 0 in a corridor.
pub open spec fn spec_pullover_score(neighbor_count: int) -> u16 {
    if neighbor_count >= 3 {
        100
    } else if neighbor_count == 1 {
        10
    } else {
        0
    }
}

pub fn pullover_score(cell: CellID, graph: &SpatialGraph) -> (r: u16)
    requires
        graph.width > 0,
    ensures
        r == spec_pullover_score(spec_neighbors(graph, cell).len() as int),
{
    let mut score: u16 = 0;
    let n: usize = graph.neighbors(cell).len();
    if n >= 3 {
        score = score + 100;
    }
    if n == 1 {
        score = score + 10;
    }
    score
}

/// A pull-over cell is traversable, inside the grid, and one step across the
/// direction of travel from the current cell.
pub proof fn lemma_pullover_is_side(g: &SpatialGraph, current: CellID, heading: Heading)
    requires
        spec_pullover(g, current, heading) is Some,
    ensures
        ({
            let c = spec_pullover(g, current, heading)->0;
            let (first, second) = side_offsets(heading);
            &&& traversable(g, c)
            &&& (side_cell(g, current, first) == Some(c) || side_cell(g, current, second) == Some(c))
            &&& first.0 * first.0 + first.1 * first.1 == 1
            &&& second.0 * second.0 + second.1 * second.1 == 1
            &&& (heading == Heading::N || heading == Heading::S) ==> first.1 == 0 && second.1 == 0
            &&& (heading == Heading::E || heading == Heading::W) ==> first.0 == 0 && second.0 == 0
        }),
{
}

/// The side cell at offset `d`, when there is one, sits at that offset in the grid.
proof fn lemma_side_cell_coords(g: &SpatialGraph, current: CellID, d: (int, int))
    requires
        g.width > 0,
        g.width * g.height <= 65536,
        side_cell(g, current, d) is Some,
    ensures
        cell_x(g, side_cell(g, current, d)->0 as int) == cell_x(g, current as int) + d.0,
        cell_y(g, side_cell(g, current, d)->0 as int) == cell_y(g, current as int) + d.1,
{
    let w = g.width as int;
    let h = g.height as int;
    let nx = cell_x(g, current as int) + d.0;
    let ny = cell_y(g, current as int) + d.1;
    let v = ny * w + nx;
    assert(0 <= v < w * h) by (nonlinear_arith)
        requires
            0 <= nx < w,
            0 <= ny < h,
            v == ny * w + nx,
    ;
    assert(v as u16 == v);
    vstd::arithmetic::div_mod::lemma_fundamental_div_mod_converse(v, w, ny, nx);
}

/// A pull-over cell is traversable and lies next to the current cell across the
/// direction of travel: in the same row, one column over, for a robot facing
/// north or south; in the same column, one row over, facing east or west.
pub proof fn lemma_pullover_adjacent(g: &SpatialGraph, current: CellID, heading: Heading)
    requires
        g.width > 0,
        g.width * g.height <= 65536,
        spec_pullover(g, current, heading) is Some,
    ensures
        ({
            let c = spec_pullover(g, current, heading)->0;
            let dx = cell_x(g, c as int) - cell_x(g, current as int);
            let dy = cell_y(g, c as int) - cell_y(g, current as int);
            &&& traversable(g, c)
            &&& (heading == Heading::N || heading == Heading::S) ==> dy == 0 && (dx == 1 || dx == -1)
            &&& (heading == Heading::E || heading == Heading::W) ==> dx == 0 && (dy == 1 || dy == -1)
        }),
{
    let (first, second) = side_offsets(heading);
    if side_cell(g, current, first) is Some {
        lemma_side_cell_coords(g, current, first);
    } else {
        lemma_side_cell_coords(g, current, second);
    }
}

} // verus!
