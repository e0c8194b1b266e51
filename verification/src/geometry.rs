//! Geometry primitives: an integer 2-D point, the four axis-aligned
//! directions, and the classification of a displacement vector into a
//! direction.

use vstd::prelude::*;

verus! {

use vstd::math::abs;

/// Side length of the square logical drawing surface, in board units.
pub const BOARD_SIZE: i64 = 1000;

/// Bound on the pointer coordinates the engine accepts. It is far larger
/// than the drawing surface, so any point a platform layer or the animation
/// driver can produce stays within it; it only keeps the arithmetic inside
/// `i64`.
pub const MAX_COORD: i64 = 4_000_000_000_000;

/// Truncating division (rounding toward zero), the behaviour of `/` on
/// machine integers, for a positive divisor.
pub open spec fn div_trunc(a: int, b: int) -> int {
    if a >= 0 {
        a / b
    } else {
        -((-a) / b)
    }
}

/// Truncating division of a possibly negative numerator by a positive
/// divisor, matching what floating-point truncation does to a quotient.
pub fn div_trunc_units(a: i64, b: i64) -> (q: i64)
    requires
        b > 0,
        i64::MIN < a,
    ensures
        q == div_trunc(a as int, b as int),
{
    if a >= 0 {
        ((a as u64) / (b as u64)) as i64
    } else {
        let m = ((-a) as u64) / (b as u64);
        proof {
            vstd::arithmetic::div_mod::lemma_div_is_ordered_by_denominator(
                (-a) as int,
                1,
                b as int,
            );
        }
        -(m as i64)
    }
}

/// A four-way axis-aligned direction. North is toward smaller `y`, West
/// toward smaller `x`.
#[derive(Clone, Copy, PartialEq, Eq, Structural, Debug)]
pub enum Direction {
    North,
    South,
    West,
    East,
}

/// An integer 2-D coordinate: either a logical grid cell index or a position
/// in board units, depending on context.
#[derive(Clone, Copy, PartialEq, Eq, Structural, Debug)]
pub struct Point {
    pub x: i64,
    pub y: i64,
}

/// The sign of the `x` displacement of a unit move in `direction`.
pub open spec fn direction_dx(direction: Direction) -> int {
    match direction {
        Direction::West => -1,
        Direction::East => 1,
        _ => 0,
    }
}

/// The sign of the `y` displacement of a unit move in `direction`.
pub open spec fn direction_dy(direction: Direction) -> int {
    match direction {
        Direction::North => -1,
        Direction::South => 1,
        _ => 0,
    }
}

/// The direction a displacement vector `(dx, dy)` is classified as: the axis
/// of larger magnitude wins, and the sign of that axis's component picks the
/// orientation. A tie `|dx| == |dy|` resolves to the vertical axis; this is a
/// deliberate policy, not a consequence of anything else.
pub open spec fn direction_of(dx: int, dy: int) -> Direction {
    if abs(dx) > abs(dy) {
        if dx > 0 {
            Direction::East
        } else {
            Direction::West
        }
    } else {
        if dy > 0 {
            Direction::South
        } else {
            Direction::North
        }
    }
}

impl Direction {
    /// Classify a displacement vector into a direction.
    pub fn from_vector(dx: i64, dy: i64) -> (r: Direction)
        requires
            i64::MIN < dx,
            i64::MIN < dy,
        ensures
            r == direction_of(dx as int, dy as int),
    {
        let ax = if dx < 0 { -dx } else { dx };
        let ay = if dy < 0 { -dy } else { dy };
        if ax > ay {
            if dx > 0 {
                Direction::East
            } else {
                Direction::West
            }
        } else {
            if dy > 0 {
                Direction::South
            } else {
                Direction::North
            }
        }
    }
}

impl Point {
    /// Componentwise sum.
    pub fn add(&self, rhs: &Point) -> (r: Point)
        requires
            i64::MIN <= self.x + rhs.x <= i64::MAX,
            i64::MIN <= self.y + rhs.y <= i64::MAX,
        ensures
            r.x == self.x + rhs.x,
            r.y == self.y + rhs.y,
    {
        Point { x: self.x + rhs.x, y: self.y + rhs.y }
    }

    /// Componentwise difference.
    pub fn sub(&self, rhs: &Point) -> (r: Point)
        requires
            i64::MIN <= self.x - rhs.x <= i64::MAX,
            i64::MIN <= self.y - rhs.y <= i64::MAX,
        ensures
            r.x == self.x - rhs.x,
            r.y == self.y - rhs.y,
    {
        Point { x: self.x - rhs.x, y: self.y - rhs.y }
    }

    /// Componentwise truncating division by a positive scalar.
    pub fn div(&self, rhs: i64) -> (r: Point)
        requires
            rhs > 0,
            i64::MIN < self.x,
            i64::MIN < self.y,
        ensures
            r.x == div_trunc(self.x as int, rhs as int),
            r.y == div_trunc(self.y as int, rhs as int),
    {
        Point { x: div_trunc_units(self.x, rhs), y: div_trunc_units(self.y, rhs) }
    }

    /// The point reached from `self` by moving `distance` units in
    /// `direction`. A negative distance moves the opposite way.
    pub fn add_direction(&self, direction: &Direction, distance: i64) -> (r: Point)
        requires
            i64::MIN <= self.x - distance <= i64::MAX,
            i64::MIN <= self.x + distance <= i64::MAX,
            i64::MIN <= self.y - distance <= i64::MAX,
            i64::MIN <= self.y + distance <= i64::MAX,
        ensures
            r.x == self.x + direction_dx(*direction) * distance,
            r.y == self.y + direction_dy(*direction) * distance,
    {
        match direction {
            Direction::North => Point { x: self.x, y: self.y - distance },
            Direction::South => Point { x: self.x, y: self.y + distance },
            Direction::West => Point { x: self.x - distance, y: self.y },
            Direction::East => Point { x: self.x + distance, y: self.y },
        }
    }
}

/// Direction classification is invariant under positive scaling of the
/// displacement vector: stretching a drag does not change which way it is
/// read.
pub proof fn lemma_direction_of_scale(dx: int, dy: int, k: int)
    requires
        k > 0,
    ensures
        direction_of(k * dx, k * dy) == direction_of(dx, dy),
{
    assert(abs(k * dx) == k * abs(dx)) by (nonlinear_arith)
        requires k > 0;
    assert(abs(k * dy) == k * abs(dy)) by (nonlinear_arith)
        requires k > 0;
    assert(k * abs(dx) > k * abs(dy) <==> abs(dx) > abs(dy)) by (nonlinear_arith)
        requires k > 0;
    assert(k * dx > 0 <==> dx > 0) by (nonlinear_arith)
        requires k > 0;
    assert(k * dy > 0 <==> dy > 0) by (nonlinear_arith)
        requires k > 0;
}

/// A tie between the two magnitudes always classifies as vertical.
pub proof fn lemma_direction_of_tie(dx: int, dy: int)
    requires
        abs(dx) == abs(dy),
    ensures
        direction_of(dx, dy) == Direction::South || direction_of(dx, dy) == Direction::North,
{
}

} // verus!
