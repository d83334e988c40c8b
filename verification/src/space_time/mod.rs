//! Discrete space-time primitives shared by the planner, the FSM and the network layer.
use vstd::prelude::*;

pub mod priority;
pub mod reservation;

verus! {

/// Compact cell address in the warehouse grid (at most 256 x 256 cells).
pub type CellID = u16;

/// Integer time step of 100 ms.
pub type Tick = u32;

/// Largest representable tick.
pub const MAX_TICK: Tick = 4294967295u32;

/// Ticks per second.
pub const TICKS_PER_SEC: Tick = 10u32;

/// Planning horizon in ticks (20 seconds).
pub const MAX_HORIZON: Tick = 200u32;

/// Quantized heading: one of the four compass directions.
#[derive(Debug, Clone, Copy, PartialEq, Eq, Hash, Structural)]
pub enum Heading {
    N,
    E,
    S,
    W,
}

/// Wire code of a heading: N = 0, E = 1, S = 2, W = 3.
pub open spec fn heading_code(h: Heading) -> u8 {
    match h {
        Heading::N => 0u8,
        Heading::E => 1u8,
        Heading::S => 2u8,
        Heading::W => 3u8,
    }
}

/// Heading with the given wire code, if the code is one of 0..=3.
pub open spec fn heading_of_code(v: u8) -> Option<Heading> {
    if v == 0 {
        Some(Heading::N)
    } else if v == 1 {
        Some(Heading::E)
    } else if v == 2 {
        Some(Heading::S)
    } else if v == 3 {
        Some(Heading::W)
    } else {
        None
    }
}

/// The heading pointing the other way.
pub open spec fn spec_opposite(h: Heading) -> Heading {
    match h {
        Heading::N => Heading::S,
        Heading::E => Heading::W,
        Heading::S => Heading::N,
        Heading::W => Heading::E,
    }
}

impl Heading {
    pub fn opposite(self) -> (r: Heading)
        ensures
            r == spec_opposite(self),
    {
        match self {
            Heading::N => Heading::S,
            Heading::E => Heading::W,
            Heading::S => Heading::N,
            Heading::W => Heading::E,
        }
    }

    pub fn to_u8(self) -> (r: u8)
        ensures
            r == heading_code(self),
    {
        match self {
            Heading::N => 0,
            Heading::E => 1,
            Heading::S => 2,
            Heading::W => 3,
        }
    }

    pub fn from_u8(v: u8) -> (r: Option<Heading>)
        ensures
            r == heading_of_code(v),
    {
        match v {
            0 => Some(Heading::N),
            1 => Some(Heading::E),
            2 => Some(Heading::S),
            3 => Some(Heading::W),
            _ => None,
        }
    }

    /// Decodes only the two low bits, so every byte names a heading.
    pub fn from_u8_masked(v: u8) -> (r: Heading)
        ensures
            Some(r) == heading_of_code(v % 4),
    {
        let low: u8 = v % 4;
        if low == 0 {
            Heading::N
        } else if low == 1 {
            Heading::E
        } else if low == 2 {
            Heading::S
        } else {
            Heading::W
        }
    }
}

/// The opposite of the opposite heading is the heading itself.
pub proof fn lemma_opposite_involutive(h: Heading)
    ensures
        spec_opposite(spec_opposite(h)) == h,
{
}

/// Decoding the code of a heading gives the heading back.
pub proof fn lemma_heading_code_roundtrip(h: Heading)
    ensures
        heading_of_code(heading_code(h)) == Some(h),
{
}

/// A half-open window of ticks `[t_start, t_end)`.
#[derive(Debug, Clone, Copy, PartialEq, Eq, Hash, Structural)]
pub struct SafeInterval {
    pub t_start: Tick,
    pub t_end: Tick,
}

/// Two half-open windows share at least one tick (as the library decides it).
pub open spec fn spec_overlaps(a_start: int, a_end: int, b_start: int, b_end: int) -> bool {
    !(a_end <= b_start || b_end <= a_start)
}

pub open spec fn spec_min(a: int, b: int) -> int {
    if a <= b {
        a
    } else {
        b
    }
}

pub open spec fn spec_max(a: int, b: int) -> int {
    if a >= b {
        a
    } else {
        b
    }
}

impl SafeInterval {
    pub fn new(t_start: Tick, t_end: Tick) -> (r: SafeInterval)
        requires
            t_start <= t_end,
        ensures
            r.t_start == t_start,
            r.t_end == t_end,
    {
        SafeInterval { t_start, t_end }
    }

    pub fn duration(&self) -> (r: Tick)
        ensures
            r == (if self.t_end >= self.t_start {
                self.t_end - self.t_start
            } else {
                0
            }),
    {
        self.t_end.saturating_sub(self.t_start)
    }

    pub fn contains(&self, tick: Tick) -> (r: bool)
        ensures
            r == (self.t_start <= tick && tick < self.t_end),
    {
        self.t_start <= tick && tick < self.t_end
    }

    pub fn overlaps(&self, other: &Self) -> (r: bool)
        ensures
            r == spec_overlaps(
                self.t_start as int,
                self.t_end as int,
                other.t_start as int,
                other.t_end as int,
            ),
    {
        !(self.t_end <= other.t_start || other.t_end <= self.t_start)
    }

    pub fn intersection(&self, other: &Self) -> (r: Option<Self>)
        ensures
            ({
                let s = spec_max(self.t_start as int, other.t_start as int);
                let e = spec_min(self.t_end as int, other.t_end as int);
                if s < e {
                    r == Some(SafeInterval { t_start: s as u32, t_end: e as u32 })
                } else {
                    r is None
                }
            }),
    {
        let start = if self.t_start >= other.t_start {
            self.t_start
        } else {
            other.t_start
        };
        let end = if self.t_end <= other.t_end {
            self.t_end
        } else {
            other.t_end
        };
        if start < end {
            Some(SafeInterval { t_start: start, t_end: end })
        } else {
            None
        }
    }

    pub fn padded(&self, pad_ticks: Tick) -> (r: Self)
        ensures
            r.t_start == (if self.t_start >= pad_ticks {
                self.t_start - pad_ticks
            } else {
                0
            }),
            r.t_end == spec_min(self.t_end + pad_ticks, u32::MAX as int),
    {
        SafeInterval {
            t_start: self.t_start.saturating_sub(pad_ticks),
            t_end: self.t_end.saturating_add(pad_ticks),
        }
    }
}

/// Overlap is symmetric.
pub proof fn lemma_overlaps_symmetric(a: SafeInterval, b: SafeInterval)
    ensures
        spec_overlaps(a.t_start as int, a.t_end as int, b.t_start as int, b.t_end as int)
            == spec_overlaps(b.t_start as int, b.t_end as int, a.t_start as int, a.t_end as int),
{
}

/// Two non-empty windows overlap exactly when they share a tick.
pub proof fn lemma_overlaps_iff_common_tick(a: SafeInterval, b: SafeInterval)
    requires
        a.t_start < a.t_end,
        b.t_start < b.t_end,
    ensures
        spec_overlaps(a.t_start as int, a.t_end as int, b.t_start as int, b.t_end as int)
            <==> exists|t: int|
            #[trigger] in_window(a, t) && in_window(b, t),
{
    if spec_overlaps(a.t_start as int, a.t_end as int, b.t_start as int, b.t_end as int) {
        let t = spec_max(a.t_start as int, b.t_start as int);
        assert(in_window(a, t) && in_window(b, t));
    }
}

/// The tick lies inside the half-open window.
pub open spec fn in_window(w: SafeInterval, t: int) -> bool {
    w.t_start <= t < w.t_end
}

/// Q8.8 unsigned fixed-point number (raw value / 256).
#[derive(Debug, Clone, Copy, PartialEq, Eq, PartialOrd, Ord, Structural)]
pub struct Q8_8(pub u16);

impl Q8_8 {
    /// Saturating addition of raw values.
    pub fn add(self, other: Self) -> (r: Self)
        ensures
            r.0 == spec_min(self.0 + other.0, u16::MAX as int),
    {
        Q8_8(self.0.saturating_add(other.0))
    }

    /// Scales by `numerator / denominator`, truncating to 16 bits.
    pub fn mul_frac(self, numerator: u16, denominator: u16) -> (r: Self)
        requires
            denominator != 0,
        ensures
            r.0 == ((self.0 as int * numerator as int) / denominator as int) as u16,
    {
        let a: u32 = self.0 as u32;
        let n: u32 = numerator as u32;
        assert(a * n <= 0xffff * 0xffff) by (nonlinear_arith)
            requires
                a <= 0xffff,
                n <= 0xffff,
        ;
        let prod: u32 = a * n;
        let q: u32 = prod / denominator as u32;
        Q8_8(#[verifier::truncate] (q as u16))
    }
}

/// Q16.16 signed fixed-point number (raw value / 65536).
#[derive(Debug, Clone, Copy, PartialEq, Eq, Structural)]
pub struct Q16_16(pub i32);

/// Saturating clamp of an integer into the `i32` range.
pub open spec fn clamp_i32(v: int) -> int {
    if v > i32::MAX {
        i32::MAX as int
    } else if v < i32::MIN {
        i32::MIN as int
    } else {
        v
    }
}

impl Q16_16 {
    /// Fixed-point product: the full product shifted right by 16 (rounding toward
    /// negative infinity), truncated to 32 bits.
    pub fn mul(self, other: Self) -> (r: Self)
        ensures
            r.0 == ((self.0 as int * other.0 as int) / 65536) as i32,
    {
        let a: i64 = self.0 as i64;
        let b: i64 = other.0 as i64;
        proof {
            lemma_i32_product_bounds(self.0 as int, other.0 as int);
        }
        let prod: i64 = a * b;
        let shifted: i64 = prod >> 16u32;
        proof {
            lemma_shr16_is_floor_div(prod);
        }
        Q16_16(#[verifier::truncate] (shifted as i32))
    }

    pub fn add(self, other: Self) -> (r: Self)
        ensures
            r.0 == clamp_i32(self.0 + other.0),
    {
        let s: i64 = self.0 as i64 + other.0 as i64;
        if s > i32::MAX as i64 {
            Q16_16(i32::MAX)
        } else if s < i32::MIN as i64 {
            Q16_16(i32::MIN)
        } else {
            Q16_16(s as i32)
        }
    }

    pub fn sub(self, other: Self) -> (r: Self)
        ensures
            r.0 == clamp_i32(self.0 - other.0),
    {
        let s: i64 = self.0 as i64 - other.0 as i64;
        if s > i32::MAX as i64 {
            Q16_16(i32::MAX)
        } else if s < i32::MIN as i64 {
            Q16_16(i32::MIN)
        } else {
            Q16_16(s as i32)
        }
    }
}

proof fn lemma_i32_product_bounds(a: int, b: int)
    requires
        i32::MIN <= a <= i32::MAX,
        i32::MIN <= b <= i32::MAX,
    ensures
        i64::MIN <= a * b <= i64::MAX,
{
    assert(-0x8000_0000int * 0x8000_0000int <= a * b <= 0x8000_0000int * 0x8000_0000int)
        by (nonlinear_arith)
        requires
            -0x8000_0000int <= a <= 0x8000_0000int,
            -0x8000_0000int <= b <= 0x8000_0000int,
    ;
}

proof fn lemma_shr16_is_floor_div(x: i64)
    ensures
        (x >> 16u32) as int == x as int / 65536,
{
    assert((x >> 16u32) as int == x as int / 65536) by (bit_vector);
}

/// Grid coordinates of a cell: column and row.
pub open spec fn spec_col(cell: int, width: int) -> int {
    cell % width
}

pub open spec fn spec_row(cell: int, width: int) -> int {
    cell / width
}

pub open spec fn spec_abs(v: int) -> int {
    if v < 0 {
        -v
    } else {
        v
    }
}

/// Two cells are 4-neighbours in a grid of the given width.
pub open spec fn spec_cells_adjacent(a: CellID, b: CellID, grid_width: u16) -> bool {
    let dx = spec_abs(spec_col(a as int, grid_width as int) - spec_col(b as int, grid_width as int));
    let dy = spec_abs(spec_row(a as int, grid_width as int) - spec_row(b as int, grid_width as int));
    (dx == 1 && dy == 0) || (dx == 0 && dy == 1)
}

/// Cells adjacent check (4-connected).
pub fn cells_adjacent(a: CellID, b: CellID, grid_width: u16) -> (r: bool)
    requires
        grid_width > 0,
    ensures
        r == spec_cells_adjacent(a, b, grid_width),
{
    let w: i32 = grid_width as i32;
    let ax: i32 = a as i32 % w;
    let ay: i32 = a as i32 / w;
    let bx: i32 = b as i32 % w;
    let by: i32 = b as i32 / w;
    let dx: i32 = if ax >= bx { ax - bx } else { bx - ax };
    let dy: i32 = if ay >= by { ay - by } else { by - ay };
    (dx == 1 && dy == 0) || (dx == 0 && dy == 1)
}

/// Adjacency is symmetric.
pub proof fn lemma_adjacent_symmetric(a: CellID, b: CellID, grid_width: u16)
    requires
        grid_width > 0,
    ensures
        spec_cells_adjacent(a, b, grid_width) == spec_cells_adjacent(b, a, grid_width),
{
}

/// No cell is adjacent to itself.
pub proof fn lemma_adjacent_irreflexive(a: CellID, grid_width: u16)
    requires
        grid_width > 0,
    ensures
        !spec_cells_adjacent(a, a, grid_width),
{
}

} // verus!
