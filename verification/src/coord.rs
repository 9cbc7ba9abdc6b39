//! Grid coordinates, the eight steps between neighbouring cells, and the
//! distance estimate that steers the search.

use vstd::prelude::*;

verus! {

/// A cell of the grid. Travel happens in the x-z plane; `y` is carried along
/// so that a coordinate lines up with a position in the world.
#[derive(Clone, Copy, Debug, PartialEq, Eq, Structural, Hash)]
pub struct Coord {
    pub x: i32,
    pub y: i32,
    pub z: i32,
}

/// The number of directions in which a step can be taken.
pub const DIRECTIONS: usize = 8;

/// Scores are counted in units of 1/282 of a cost point. 282 is the least
/// number that both step weights, 2 and 1.41, divide without remainder, so
/// every edge cost is a whole number of units.
pub const SCORE_UNIT: u64 = 282;

/// What a straight step multiplies the summed costs of its two cells by:
/// `SCORE_UNIT / 2`.
pub const STRAIGHT_FACTOR: u64 = 141;

/// What a diagonal step multiplies the summed costs of its two cells by:
/// `SCORE_UNIT / 1.41`.
pub const DIAGONAL_FACTOR: u64 = 200;

/// The square of `3 * SCORE_UNIT`: the estimate is three times the straight
/// line distance, in score units.
pub const ESTIMATE_SQUARE: u128 = 715716;

/// Change of `x` in direction `d`: up, left, down, right, then the four
/// diagonals up-left, down-left, down-right, up-right.
pub open spec fn dir_dx(d: int) -> int {
    if d == 1 || d == 4 || d == 5 {
        -1
    } else if d == 3 || d == 6 || d == 7 {
        1
    } else {
        0
    }
}

/// Change of `z` in direction `d`.
pub open spec fn dir_dz(d: int) -> int {
    if d == 0 || d == 4 || d == 7 {
        1
    } else if d == 2 || d == 5 || d == 6 {
        -1
    } else {
        0
    }
}

/// Whether direction `d` changes both `x` and `z`.
pub open spec fn dir_diagonal(d: int) -> bool {
    4 <= d < 8
}

/// `b` is one of the eight cells around `a`, on the same level.
pub open spec fn is_step(a: Coord, b: Coord) -> bool {
    &&& a.y == b.y
    &&& -1 <= b.x - a.x <= 1
    &&& -1 <= b.z - a.z <= 1
    &&& a != b
}

/// A step from `a` to `b` that changes both `x` and `z`.
pub open spec fn is_diagonal_step(a: Coord, b: Coord) -> bool {
    a.x != b.x && a.z != b.z
}

/// The factor of a step: summed cell costs times this is the edge cost in
/// score units.
pub open spec fn step_factor(diagonal: bool) -> int {
    if diagonal {
        DIAGONAL_FACTOR as int
    } else {
        STRAIGHT_FACTOR as int
    }
}

/// The square of the straight line distance between two cells.
pub open spec fn dist_squared(a: Coord, b: Coord) -> nat {
    ((a.x - b.x) * (a.x - b.x) + (a.y - b.y) * (a.y - b.y) + (a.z - b.z) * (a.z - b.z)) as nat
}

/// `r` is the square root of `x`, rounded down.
pub open spec fn is_floor_sqrt(x: nat, r: nat) -> bool {
    r * r <= x < (r + 1) * (r + 1)
}

/// The square root of `x`, rounded down.
pub open spec fn floor_sqrt(x: nat) -> nat {
    choose|r: nat| is_floor_sqrt(x, r)
}

/// The estimate of what remains from `a` to `b`: three times the straight
/// line distance, in score units, rounded down.
pub open spec fn estimate(a: Coord, b: Coord) -> nat {
    floor_sqrt(ESTIMATE_SQUARE as nat * dist_squared(a, b))
}

/// Only one number is the rounded-down square root.
pub proof fn lemma_floor_sqrt_unique(x: nat, r: nat)
    requires
        is_floor_sqrt(x, r),
    ensures
        floor_sqrt(x) == r,
{
    let s = floor_sqrt(x);
    if s < r {
        assert((s + 1) * (s + 1) <= r * r) by (nonlinear_arith)
            requires
                s + 1 <= r,
        ;
    } else if r < s {
        assert((r + 1) * (r + 1) <= s * s) by (nonlinear_arith)
            requires
                r + 1 <= s,
        ;
    }
}

impl Coord {
    pub fn new(x: i32, y: i32, z: i32) -> (c: Coord)
        ensures
            c == (Coord { x, y, z }),
    {
        Coord { x, y, z }
    }

    /// The three coordinates as a tuple.
    pub open spec fn spec_key(self) -> (i32, i32, i32) {
        (self.x, self.y, self.z)
    }

    /// The three coordinates as a tuple, the form in which tables keep a
    /// cell.
    pub fn key(self) -> (k: (i32, i32, i32))
        ensures
            k == self.spec_key(),
    {
        (self.x, self.y, self.z)
    }

    /// The cell with the three coordinates of `k`.
    pub fn from_key(k: (i32, i32, i32)) -> (c: Coord)
        ensures
            c.spec_key() == k,
    {
        Coord { x: k.0, y: k.1, z: k.2 }
    }

    /// The cell `dx` and `dz` away on the same level, where the range of the
    /// coordinates has one.
    pub open spec fn spec_shifted(self, dx: int, dz: int) -> Option<Coord> {
        let x = self.x + dx;
        let z = self.z + dz;
        if i32::MIN <= x <= i32::MAX && i32::MIN <= z <= i32::MAX {
            Some(Coord { x: x as i32, y: self.y, z: z as i32 })
        } else {
            None
        }
    }

    /// The cell `dx` and `dz` away on the same level. There is none where
    /// that would leave the range of the coordinates.
    pub fn shifted(self, dx: i32, dz: i32) -> (c: Option<Coord>)
        ensures
            c == self.spec_shifted(dx as int, dz as int),
    {
        match (self.x.checked_add(dx), self.z.checked_add(dz)) {
            (Some(x), Some(z)) => Some(Coord { x, y: self.y, z }),
            _ => None,
        }
    }

    /// The cell one step away in direction `d`, where the grid has one.
    pub open spec fn spec_neighbor(self, d: int) -> Option<Coord> {
        let x = self.x + dir_dx(d);
        let z = self.z + dir_dz(d);
        if 0 <= d < 8 && i32::MIN <= x <= i32::MAX && i32::MIN <= z <= i32::MAX {
            Some(Coord { x: x as i32, y: self.y, z: z as i32 })
        } else {
            None
        }
    }

    /// The cell one step away in direction `d`. There is none for a
    /// direction that is not one of the eight, nor where the step would
    /// leave the range of the coordinates.
    pub fn neighbor(self, d: usize) -> (n: Option<Coord>)
        ensures
            n == self.spec_neighbor(d as int),
    {
        if d >= DIRECTIONS {
            return None;
        }
        let dx: i32 = if d == 1 || d == 4 || d == 5 {
            -1
        } else if d == 3 || d == 6 || d == 7 {
            1
        } else {
            0
        };
        let dz: i32 = if d == 0 || d == 4 || d == 7 {
            1
        } else if d == 2 || d == 5 || d == 6 {
            -1
        } else {
            0
        };
        self.shifted(dx, dz)
    }

    /// The square of the straight line distance to `other`.
    pub fn distance_squared(self, other: Coord) -> (d: u128)
        ensures
            d == dist_squared(self, other),
            d <= 3 * 0xffff_ffff * 0xffff_ffff,
    {
        let dx: u128 = axis_gap(self.x, other.x) as u128;
        let dy: u128 = axis_gap(self.y, other.y) as u128;
        let dz: u128 = axis_gap(self.z, other.z) as u128;
        assert(dx * dx == (self.x - other.x) * (self.x - other.x)) by (nonlinear_arith)
            requires
                dx == self.x - other.x || dx == other.x - self.x,
        ;
        assert(dy * dy == (self.y - other.y) * (self.y - other.y)) by (nonlinear_arith)
            requires
                dy == self.y - other.y || dy == other.y - self.y,
        ;
        assert(dz * dz == (self.z - other.z) * (self.z - other.z)) by (nonlinear_arith)
            requires
                dz == self.z - other.z || dz == other.z - self.z,
        ;
        assert(dx * dx <= 0xffff_ffff * 0xffff_ffff) by (nonlinear_arith)
            requires
                0 <= dx <= 0xffff_ffff,
        ;
        assert(dy * dy <= 0xffff_ffff * 0xffff_ffff) by (nonlinear_arith)
            requires
                0 <= dy <= 0xffff_ffff,
        ;
        assert(dz * dz <= 0xffff_ffff * 0xffff_ffff) by (nonlinear_arith)
            requires
                0 <= dz <= 0xffff_ffff,
        ;
        dx * dx + dy * dy + dz * dz
    }

    /// The estimate of what remains from here to `goal`.
    pub fn estimate_to(self, goal: Coord) -> (h: u64)
        ensures
            h == estimate(self, goal),
            h <= ESTIMATE_BOUND,
    {
        let d: u128 = self.distance_squared(goal);
        assert(ESTIMATE_SQUARE * d <= 715716 * (3 * 0xffff_ffff * 0xffff_ffff)) by (nonlinear_arith)
            requires
                0 <= d <= 3 * 0xffff_ffff * 0xffff_ffff,
                ESTIMATE_SQUARE == 715716,
        ;
        let x: u128 = ESTIMATE_SQUARE * d;
        let r: u64 = integer_sqrt(x);
        proof {
            lemma_floor_sqrt_unique(x as nat, r as nat);
            if r > ESTIMATE_BOUND {
                assert(r * r > x) by (nonlinear_arith)
                    requires
                        r >= 6293479929732,
                        x <= 715716 * (3 * 0xffff_ffff * 0xffff_ffff),
                ;
            }
        }
        r
    }
}

/// No estimate is larger than this: it is the estimate between two opposite
/// corners of the coordinate range.
pub const ESTIMATE_BOUND: u64 = 6293479929731;

/// How far apart two coordinates are along one axis.
pub fn axis_gap(a: i32, b: i32) -> (g: u64)
    ensures
        g == if a >= b { a - b } else { b - a },
        g <= 0xffff_ffff,
{
    let wa: i64 = a as i64;
    let wb: i64 = b as i64;
    if wa >= wb {
        (wa - wb) as u64
    } else {
        (wb - wa) as u64
    }
}

/// The square root of `x`, rounded down.
pub fn integer_sqrt(x: u128) -> (r: u64)
    ensures
        is_floor_sqrt(x as nat, r as nat),
{
    let mut lo: u128 = 0;
    let mut hi: u128 = 0x1_0000_0000_0000_0000;
    assert(hi * hi > x) by (nonlinear_arith)
        requires
            hi == 0x1_0000_0000_0000_0000,
            x <= 0xffff_ffff_ffff_ffff_ffff_ffff_ffff_ffff,
    ;
    while hi - lo > 1
        invariant
            lo < hi <= 0x1_0000_0000_0000_0000,
            lo * lo <= x < hi * hi,
        decreases hi - lo,
    {
        let mid: u128 = lo + (hi - lo) / 2;
        assert(mid * mid <= 0xffff_ffff_ffff_ffff * 0xffff_ffff_ffff_ffff) by (nonlinear_arith)
            requires
                0 <= mid <= 0xffff_ffff_ffff_ffff,
        ;
        if mid * mid <= x {
            lo = mid;
        } else {
            hi = mid;
        }
    }
    lo as u64
}

/// Every cell around `a` lies in one of the eight directions.
pub proof fn lemma_step_has_direction(a: Coord, b: Coord) -> (d: int)
    requires
        is_step(a, b),
    ensures
        0 <= d < 8,
        a.spec_neighbor(d) == Some(b),
        dir_diagonal(d) == is_diagonal_step(a, b),
{
    let dx = b.x - a.x;
    let dz = b.z - a.z;
    if dx == 0 && dz == 1 {
        0
    } else if dx == -1 && dz == 0 {
        1
    } else if dx == 0 && dz == -1 {
        2
    } else if dx == 1 && dz == 0 {
        3
    } else if dx == -1 && dz == 1 {
        4
    } else if dx == -1 && dz == -1 {
        5
    } else if dx == 1 && dz == -1 {
        6
    } else {
        7
    }
}

/// A neighbour in one of the eight directions is a step away.
pub proof fn lemma_neighbor_is_step(a: Coord, d: int)
    requires
        a.spec_neighbor(d).is_some(),
    ensures
        is_step(a, a.spec_neighbor(d).unwrap()),
        is_diagonal_step(a, a.spec_neighbor(d).unwrap()) == dir_diagonal(d),
{
}

} // verus!
