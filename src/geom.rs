use vstd::prelude::*;

verus! {

/// Sub-units per grid cell. Every coordinate in this crate is an integer
/// count of sub-units, so `(UNIT, 0)` is the lattice point one cell to the
/// right of the origin.
pub const UNIT: i64 = 9600;

/// Width, in sub-units of the unit parametrisation of an edge, below which
/// bisection stops (0.04 of a cell).
pub const BISECTION_TOLERANCE: i64 = 384;

/// Step of the central difference that estimates a normal (0.01 of a cell).
pub const NORMAL_STEP: i64 = 96;

/// Largest coordinate magnitude at which a field may be sampled.
pub const SAMPLE_LIMIT: i64 = 0x4_0000_0000_0000;

/// Largest magnitude of a field value.
pub const FIELD_LIMIT: i128 = 0x4000_0000_0000_0000_0000_0000_0000;

/// A point, or a vector, in sub-units.
#[derive(Clone, Copy, Debug, PartialEq, Eq, Structural)]
pub struct Point {
    pub x: i64,
    pub y: i64,
}

impl Point {
    pub fn new(x: i64, y: i64) -> (r: Point)
        ensures
            r.x == x,
            r.y == y,
    {
        Point { x, y }
    }

    /// This point moved by `(dx, dy)`.
    pub open spec fn shifted(self, dx: int, dy: int) -> Point {
        Point { x: (self.x + dx) as i64, y: (self.y + dy) as i64 }
    }

    /// Both coordinates lie within `bound` of zero.
    pub open spec fn within(self, bound: int) -> bool {
        -bound <= self.x <= bound && -bound <= self.y <= bound
    }
}

/// A direction normal to a contour. It is not scaled to unit length: doing so
/// takes a square root, which exact integer arithmetic cannot give.
#[derive(Clone, Copy, Debug, PartialEq, Eq, Structural)]
pub struct Normal {
    pub dx: i128,
    pub dy: i128,
}

/// A circle, as the field `radius² - |p - center|²`: positive inside.
#[derive(Clone, Copy, Debug)]
pub struct Circle {
    center: Point,
    radius: i64,
}

impl Circle {
    pub closed spec fn wf(self) -> bool {
        self.center.within(SAMPLE_LIMIT as int) && -SAMPLE_LIMIT <= self.radius <= SAMPLE_LIMIT
    }

    #[verifier::type_invariant]
    spec fn inv(self) -> bool {
        self.wf()
    }

    pub closed spec fn spec_center(self) -> Point {
        self.center
    }

    pub closed spec fn spec_radius(self) -> int {
        self.radius as int
    }

    pub fn new(center: Point, radius: i64) -> (r: Circle)
        requires
            center.within(SAMPLE_LIMIT as int),
            -SAMPLE_LIMIT <= radius <= SAMPLE_LIMIT,
        ensures
            r.spec_center() == center,
            r.spec_radius() == radius,
    {
        Circle { center, radius }
    }

    pub fn center(&self) -> (r: Point)
        ensures
            r == self.spec_center(),
            r.within(SAMPLE_LIMIT as int),
    {
        proof {
            use_type_invariant(self);
        }
        self.center
    }

    pub fn radius(&self) -> (r: i64)
        ensures
            r == self.spec_radius(),
            -SAMPLE_LIMIT <= r <= SAMPLE_LIMIT,
    {
        proof {
            use_type_invariant(self);
        }
        self.radius
    }
}

/// A line segment between two points.
#[derive(Clone, Copy, Debug)]
pub struct Line {
    pub points: [Point; 2],
}

impl Line {
    pub fn new(p1: Point, p2: Point) -> (r: Line)
        ensures
            r.points[0] == p1,
            r.points[1] == p2,
    {
        Line { points: [p1, p2] }
    }

    /// The squared length of the segment.
    pub open spec fn spec_lengthsq(self) -> int {
        let dx = self.points[1].x - self.points[0].x;
        let dy = self.points[1].y - self.points[0].y;
        dx * dx + dy * dy
    }

    pub fn lengthsq(&self) -> (r: i128)
        requires
            self.points[0].within(SAMPLE_LIMIT as int),
            self.points[1].within(SAMPLE_LIMIT as int),
        ensures
            r == self.spec_lengthsq(),
    {
        let a = self.points[0];
        let b = self.points[1];
        let dx = (b.x as i128) - (a.x as i128);
        let dy = (b.y as i128) - (a.y as i128);
        proof {
            lemma_square_bound(dx as int);
            lemma_square_bound(dy as int);
        }
        dx * dx + dy * dy
    }
}

/// The square of a difference of two coordinates within the sample limit
/// stays far inside `i128`.
pub proof fn lemma_square_bound(d: int)
    requires
        -2 * SAMPLE_LIMIT <= d <= 2 * SAMPLE_LIMIT,
    ensures
        0 <= d * d <= 0x40_0000_0000_0000_0000_0000_0000,
{
    assert(0 <= d * d <= 0x40_0000_0000_0000_0000_0000_0000) by (nonlinear_arith)
        requires
            -0x8_0000_0000_0000 <= d <= 0x8_0000_0000_0000,
    ;
}

/// A product of two coordinates within the sample limit stays far inside `i128`.
pub proof fn lemma_product_bound(a: int, b: int)
    requires
        -SAMPLE_LIMIT <= a <= SAMPLE_LIMIT,
        -SAMPLE_LIMIT <= b <= SAMPLE_LIMIT,
    ensures
        -0x10_0000_0000_0000_0000_0000_0000 <= a * b <= 0x10_0000_0000_0000_0000_0000_0000,
{
    assert(-0x10_0000_0000_0000_0000_0000_0000 <= a * b <= 0x10_0000_0000_0000_0000_0000_0000) by (nonlinear_arith)
        requires
            -0x4_0000_0000_0000 <= a <= 0x4_0000_0000_0000,
            -0x4_0000_0000_0000 <= b <= 0x4_0000_0000_0000,
    ;
}

} // verus!
