use vstd::prelude::*;

verus! {

/// A point (or a vector) on the integer grid.
#[derive(Clone, Copy, Debug, PartialEq, Eq, Structural)]
pub struct Point {
    pub x: i32,
    pub y: i32,
}

pub fn point(x: i32, y: i32) -> (r: Point)
    ensures
        r == (Point { x, y }),
{
    Point { x, y }
}

pub open spec fn min_int(a: int, b: int) -> int {
    if a <= b { a } else { b }
}

pub open spec fn max_int(a: int, b: int) -> int {
    if a >= b { a } else { b }
}

/// An axis-aligned bounding box with inclusive corners `min` and `max`.
#[derive(Clone, Copy, Debug, PartialEq, Eq, Structural)]
pub struct AABB {
    pub min: Point,
    pub max: Point,
}

impl AABB {
    /// A box is proper when its `min` corner is not beyond its `max` corner.
    pub open spec fn wf(self) -> bool {
        self.min.x <= self.max.x && self.min.y <= self.max.y
    }

    /// The two boxes share at least one point (touching edges count).
    pub open spec fn overlaps(self, o: AABB) -> bool {
        self.min.x <= o.max.x && self.max.x >= o.min.x && self.min.y <= o.max.y && self.max.y
            >= o.min.y
    }

    pub open spec fn holds_point(self, p: Point) -> bool {
        self.min.x <= p.x <= self.max.x && self.min.y <= p.y <= self.max.y
    }

    /// Both corners of `self` lie inside `o`.
    pub open spec fn within(self, o: AABB) -> bool {
        o.holds_point(self.min) && o.holds_point(self.max)
    }

    pub open spec fn union_of(self, o: AABB) -> AABB {
        AABB {
            min: Point {
                x: min_int(self.min.x as int, o.min.x as int) as i32,
                y: min_int(self.min.y as int, o.min.y as int) as i32,
            },
            max: Point {
                x: max_int(self.max.x as int, o.max.x as int) as i32,
                y: max_int(self.max.y as int, o.max.y as int) as i32,
            },
        }
    }

    pub open spec fn perimeter_of(self) -> int {
        2 * ((self.max.x - self.min.x) + (self.max.y - self.min.y))
    }

    pub fn new(min: Point, max: Point) -> (r: AABB)
        ensures
            r == (AABB { min, max }),
    {
        AABB { min, max }
    }

    pub fn from_pos_size(pos: Point, size: Point) -> (r: AABB)
        requires
            i32::MIN <= pos.x + size.x <= i32::MAX,
            i32::MIN <= pos.y + size.y <= i32::MAX,
        ensures
            r.min == pos,
            r.max.x == pos.x + size.x,
            r.max.y == pos.y + size.y,
    {
        AABB { min: pos, max: Point { x: pos.x + size.x, y: pos.y + size.y } }
    }

    pub fn overlaps_aabb(&self, other: &AABB) -> (r: bool)
        ensures
            r == self.overlaps(*other),
    {
        self.min.x <= other.max.x && self.max.x >= other.min.x && self.min.y <= other.max.y
            && self.max.y >= other.min.y
    }

    pub fn overlaps_point(&self, p: Point) -> (r: bool)
        ensures
            r == self.holds_point(p),
    {
        p.x >= self.min.x && p.x <= self.max.x && p.y >= self.min.y && p.y <= self.max.y
    }

    pub fn is_within_aabb(&self, other: &AABB) -> (r: bool)
        ensures
            r == self.within(*other),
    {
        other.overlaps_point(self.min) && other.overlaps_point(self.max)
    }

    pub fn pos(&self) -> (r: Point)
        ensures
            r == self.min,
    {
        self.min
    }

    /// Width and height, which may exceed the range of `i32`.
    pub fn size(&self) -> (r: (i64, i64))
        ensures
            r.0 == self.max.x - self.min.x,
            r.1 == self.max.y - self.min.y,
    {
        (self.max.x as i64 - self.min.x as i64, self.max.y as i64 - self.min.y as i64)
    }

    pub fn area(&self) -> (r: i128)
        ensures
            r == (self.max.x - self.min.x) * (self.max.y - self.min.y),
    {
        let (w, h) = self.size();
        assert(-0x1_0000_0000 <= w <= 0x1_0000_0000 && -0x1_0000_0000 <= h <= 0x1_0000_0000);
        assert(-0x1_0000_0000_0000_0000 <= w * h <= 0x1_0000_0000_0000_0000) by (nonlinear_arith)
            requires
                -0x1_0000_0000 <= w <= 0x1_0000_0000,
                -0x1_0000_0000 <= h <= 0x1_0000_0000,
        ;
        (w as i128) * (h as i128)
    }

    /// The middle of the box, rounded toward `min`.
    pub fn center(&self) -> (r: Point)
        requires
            self.wf(),
        ensures
            r.x == self.min.x + (self.max.x - self.min.x) / 2,
            r.y == self.min.y + (self.max.y - self.min.y) / 2,
    {
        let (w, h) = self.size();
        let x = (self.min.x as i64 + w / 2) as i32;
        let y = (self.min.y as i64 + h / 2) as i32;
        Point { x, y }
    }

    pub fn bottom_left(&self) -> (r: Point)
        ensures
            r == self.min,
    {
        self.min
    }

    pub fn bottom_right(&self) -> (r: Point)
        ensures
            r == (Point { x: self.max.x, y: self.min.y }),
    {
        Point { x: self.max.x, y: self.min.y }
    }

    pub fn top_left(&self) -> (r: Point)
        ensures
            r == (Point { x: self.min.x, y: self.max.y }),
    {
        Point { x: self.min.x, y: self.max.y }
    }

    pub fn top_right(&self) -> (r: Point)
        ensures
            r == self.max,
    {
        self.max
    }

    /// The smallest box that holds both boxes.
    pub fn union(&self, other: &AABB) -> (r: AABB)
        ensures
            r == self.union_of(*other),
    {
        let min_x = if self.min.x <= other.min.x { self.min.x } else { other.min.x };
        let min_y = if self.min.y <= other.min.y { self.min.y } else { other.min.y };
        let max_x = if self.max.x >= other.max.x { self.max.x } else { other.max.x };
        let max_y = if self.max.y >= other.max.y { self.max.y } else { other.max.y };
        AABB { min: Point { x: min_x, y: min_y }, max: Point { x: max_x, y: max_y } }
    }

    pub fn perimeter(&self) -> (r: i64)
        ensures
            r == self.perimeter_of(),
    {
        let (w, h) = self.size();
        2 * (w + h)
    }

    /// The box grown by `margin` on every side, clamped to the range of `i32`.
    pub fn expand(&self, margin: i32) -> (r: AABB)
        requires
            margin >= 0,
        ensures
            r.min.x == max_int(self.min.x - margin, i32::MIN as int),
            r.min.y == max_int(self.min.y - margin, i32::MIN as int),
            r.max.x == min_int(self.max.x + margin, i32::MAX as int),
            r.max.y == min_int(self.max.y + margin, i32::MAX as int),
    {
        let lo_x = self.min.x as i64 - margin as i64;
        let lo_y = self.min.y as i64 - margin as i64;
        let hi_x = self.max.x as i64 + margin as i64;
        let hi_y = self.max.y as i64 + margin as i64;
        AABB {
            min: Point {
                x: if lo_x < i32::MIN as i64 { i32::MIN } else { lo_x as i32 },
                y: if lo_y < i32::MIN as i64 { i32::MIN } else { lo_y as i32 },
            },
            max: Point {
                x: if hi_x > i32::MAX as i64 { i32::MAX } else { hi_x as i32 },
                y: if hi_y > i32::MAX as i64 { i32::MAX } else { hi_y as i32 },
            },
        }
    }
}

/// A circle with an integer centre and a non-negative radius.
#[derive(Clone, Copy, Debug, PartialEq, Eq, Structural)]
pub struct Circle {
    pub pos: Point,
    pub radius: i32,
}

pub open spec fn sq(v: int) -> int {
    v * v
}

pub open spec fn clamp_int(v: int, lo: int, hi: int) -> int {
    if v < lo {
        lo
    } else if v > hi {
        hi
    } else {
        v
    }
}

impl Circle {
    pub open spec fn wf(self) -> bool {
        0 <= self.radius && i32::MIN <= self.pos.x - self.radius && self.pos.x + self.radius
            <= i32::MAX && i32::MIN <= self.pos.y - self.radius && self.pos.y + self.radius
            <= i32::MAX
    }

    pub open spec fn bounds_of(self) -> AABB {
        AABB {
            min: Point {
                x: (self.pos.x - self.radius) as i32,
                y: (self.pos.y - self.radius) as i32,
            },
            max: Point {
                x: (self.pos.x + self.radius) as i32,
                y: (self.pos.y + self.radius) as i32,
            },
        }
    }

    /// The centres are closer than the sum of the radii.
    pub open spec fn overlaps_circle_spec(self, o: Circle) -> bool {
        sq(self.pos.x - o.pos.x) + sq(self.pos.y - o.pos.y) < sq(self.radius + o.radius)
    }

    /// The squared distance from the centre to the nearest point of `b`.
    pub open spec fn nearest_sq(self, b: AABB) -> int {
        sq(self.pos.x - clamp_int(self.pos.x as int, b.min.x as int, b.max.x as int)) + sq(
            self.pos.y - clamp_int(self.pos.y as int, b.min.y as int, b.max.y as int),
        )
    }

    /// The point of the box nearest to the centre is at most the radius
    /// away (a circle touching the box counts).
    pub open spec fn overlaps_aabb_spec(self, b: AABB) -> bool {
        self.nearest_sq(b) <= sq(self.radius as int)
    }

    /// The point of the box nearest to the centre is closer than the radius:
    /// the shapes share more than a touching point.
    pub open spec fn meets_aabb_spec(self, b: AABB) -> bool {
        self.nearest_sq(b) < sq(self.radius as int)
    }

    pub fn diameter(&self) -> (r: i64)
        ensures
            r == 2 * self.radius,
    {
        2 * (self.radius as i64)
    }

    pub fn bounds(&self) -> (r: AABB)
        requires
            self.wf(),
        ensures
            r == self.bounds_of(),
            r.wf(),
    {
        AABB {
            min: Point { x: self.pos.x - self.radius, y: self.pos.y - self.radius },
            max: Point { x: self.pos.x + self.radius, y: self.pos.y + self.radius },
        }
    }

    pub fn overlaps_circle(&self, other: &Circle) -> (r: bool)
        ensures
            r == self.overlaps_circle_spec(*other),
    {
        let dx = self.pos.x as i128 - other.pos.x as i128;
        let dy = self.pos.y as i128 - other.pos.y as i128;
        let rr = self.radius as i128 + other.radius as i128;
        proof {
            lemma_sq_bound(dx as int, 0x1_0000_0000);
            lemma_sq_bound(dy as int, 0x1_0000_0000);
            lemma_sq_bound(rr as int, 0x1_0000_0000);
        }
        dx * dx + dy * dy < rr * rr
    }

    fn nearest_sq_dist(&self, other: &AABB) -> (r: i128)
        ensures
            r == self.nearest_sq(*other),
            0 <= r <= 0x2_0000_0000_0000_0000,
    {
        let nx = if self.pos.x < other.min.x {
            other.min.x
        } else if self.pos.x > other.max.x {
            other.max.x
        } else {
            self.pos.x
        };
        let ny = if self.pos.y < other.min.y {
            other.min.y
        } else if self.pos.y > other.max.y {
            other.max.y
        } else {
            self.pos.y
        };
        let dx = self.pos.x as i128 - nx as i128;
        let dy = self.pos.y as i128 - ny as i128;
        proof {
            lemma_sq_bound(dx as int, 0x1_0000_0000);
            lemma_sq_bound(dy as int, 0x1_0000_0000);
        }
        dx * dx + dy * dy
    }

    /// Whether the circle and the box share a point, touching included.
    pub fn overlaps_aabb(&self, other: &AABB) -> (r: bool)
        ensures
            r == self.overlaps_aabb_spec(*other),
    {
        let d = self.nearest_sq_dist(other);
        let rr = self.radius as i128;
        proof {
            lemma_sq_bound(rr as int, 0x1_0000_0000);
        }
        d <= rr * rr
    }

    /// Whether the circle and the box overlap by more than a touching point.
    pub fn meets_aabb(&self, other: &AABB) -> (r: bool)
        ensures
            r == self.meets_aabb_spec(*other),
    {
        let d = self.nearest_sq_dist(other);
        let rr = self.radius as i128;
        proof {
            lemma_sq_bound(rr as int, 0x1_0000_0000);
        }
        d < rr * rr
    }
}

proof fn lemma_sq_bound(v: int, b: int)
    requires
        -b <= v <= b,
    ensures
        0 <= v * v <= b * b,
{
    assert(0 <= v * v <= b * b) by (nonlinear_arith)
        requires
            -b <= v <= b,
    ;
}

/// The exact shape an entity collides with.
#[derive(Clone, Copy, Debug, PartialEq, Eq, Structural)]
pub enum CollisionShape {
    AABB(AABB),
    CIRCLE(Circle),
}

impl CollisionShape {
    pub open spec fn wf(self) -> bool {
        match self {
            CollisionShape::AABB(b) => b.wf(),
            CollisionShape::CIRCLE(c) => c.wf(),
        }
    }

    pub open spec fn bounds_of(self) -> AABB {
        match self {
            CollisionShape::AABB(b) => b,
            CollisionShape::CIRCLE(c) => c.bounds_of(),
        }
    }

    /// Exact overlap of two shapes.
    pub open spec fn overlaps_spec(self, o: CollisionShape) -> bool {
        match (self, o) {
            (CollisionShape::AABB(a), CollisionShape::AABB(b)) => a.overlaps(b),
            (CollisionShape::AABB(a), CollisionShape::CIRCLE(c)) => c.meets_aabb_spec(a),
            (CollisionShape::CIRCLE(c), CollisionShape::AABB(b)) => c.meets_aabb_spec(b),
            (CollisionShape::CIRCLE(c), CollisionShape::CIRCLE(d)) => c.overlaps_circle_spec(d),
        }
    }

    /// The middle of a box, or the centre of a circle.
    pub fn centroid(&self) -> (r: Point)
        requires
            self.wf(),
        ensures
            r == match *self {
                CollisionShape::AABB(b) => Point {
                    x: (b.min.x + (b.max.x - b.min.x) / 2) as i32,
                    y: (b.min.y + (b.max.y - b.min.y) / 2) as i32,
                },
                CollisionShape::CIRCLE(c) => c.pos,
            },
    {
        match self {
            CollisionShape::AABB(b) => b.center(),
            CollisionShape::CIRCLE(c) => c.pos,
        }
    }

    /// Whether `p` lies in the box (edges included) or strictly inside the
    /// circle.
    pub fn overlaps_point(&self, p: Point) -> (r: bool)
        ensures
            r == match *self {
                CollisionShape::AABB(b) => b.holds_point(p),
                CollisionShape::CIRCLE(c) => sq(c.pos.x - p.x) + sq(c.pos.y - p.y) < sq(c.radius as int),
            },
    {
        match self {
            CollisionShape::AABB(b) => b.overlaps_point(p),
            CollisionShape::CIRCLE(c) => {
                let dx = c.pos.x as i128 - p.x as i128;
                let dy = c.pos.y as i128 - p.y as i128;
                let rr = c.radius as i128;
                proof {
                    lemma_sq_bound(dx as int, 0x1_0000_0000);
                    lemma_sq_bound(dy as int, 0x1_0000_0000);
                    lemma_sq_bound(rr as int, 0x1_0000_0000);
                }
                dx * dx + dy * dy < rr * rr
            },
        }
    }

    pub fn bounds(&self) -> (r: AABB)
        requires
            self.wf(),
        ensures
            r == self.bounds_of(),
            r.wf(),
    {
        match self {
            CollisionShape::AABB(b) => *b,
            CollisionShape::CIRCLE(c) => c.bounds(),
        }
    }

    pub fn overlaps(&self, other: &CollisionShape) -> (r: bool)
        ensures
            r == self.overlaps_spec(*other),
    {
        match (self, other) {
            (CollisionShape::AABB(a), CollisionShape::AABB(b)) => a.overlaps_aabb(b),
            (CollisionShape::AABB(a), CollisionShape::CIRCLE(c)) => c.meets_aabb(a),
            (CollisionShape::CIRCLE(c), CollisionShape::AABB(b)) => c.meets_aabb(b),
            (CollisionShape::CIRCLE(c), CollisionShape::CIRCLE(d)) => c.overlaps_circle(d),
        }
    }
}

/// Exact overlap implies overlap of the bounding boxes: the broad phase
/// never drops a pair that truly collides.
pub proof fn lemma_shape_overlap_implies_bounds_overlap(a: CollisionShape, b: CollisionShape)
    requires
        a.wf(),
        b.wf(),
        a.overlaps_spec(b),
    ensures
        a.bounds_of().overlaps(b.bounds_of()),
{
    match (a, b) {
        (CollisionShape::AABB(x), CollisionShape::CIRCLE(c)) => {
            lemma_circle_box_bounds(c, x);
        },
        (CollisionShape::CIRCLE(c), CollisionShape::AABB(x)) => {
            lemma_circle_box_bounds(c, x);
        },
        (CollisionShape::CIRCLE(c), CollisionShape::CIRCLE(d)) => {
            lemma_circles_bounds(c, d);
        },
        _ => {},
    }
}

proof fn lemma_sq_lt(a: int, r: int)
    requires
        r >= 0,
        sq(a) < sq(r),
    ensures
        -r < a < r,
{
    if a >= r {
        assert(a * a >= r * r) by (nonlinear_arith)
            requires
                a >= r,
                r >= 0,
        ;
    }
    if a <= -r {
        assert(a * a >= r * r) by (nonlinear_arith)
            requires
                a <= -r,
                r >= 0,
        ;
    }
}

proof fn lemma_sq_le(a: int, r: int)
    requires
        r >= 0,
        sq(a) <= sq(r),
    ensures
        -r <= a <= r,
{
    if a > r {
        assert(a * a > r * r) by (nonlinear_arith)
            requires
                a > r,
                r >= 0,
        ;
    }
    if a < -r {
        assert(a * a > r * r) by (nonlinear_arith)
            requires
                a < -r,
                r >= 0,
        ;
    }
}

proof fn lemma_circle_box_bounds(c: Circle, b: AABB)
    requires
        c.wf(),
        b.wf(),
        c.overlaps_aabb_spec(b),
    ensures
        c.bounds_of().overlaps(b),
{
    let dx = c.pos.x - clamp_int(c.pos.x as int, b.min.x as int, b.max.x as int);
    let dy = c.pos.y - clamp_int(c.pos.y as int, b.min.y as int, b.max.y as int);
    assert(sq(dy) >= 0 && sq(dx) >= 0) by (nonlinear_arith);
    lemma_sq_le(dx, c.radius as int);
    lemma_sq_le(dy, c.radius as int);
}

proof fn lemma_circles_bounds(c: Circle, d: Circle)
    requires
        c.wf(),
        d.wf(),
        c.overlaps_circle_spec(d),
    ensures
        c.bounds_of().overlaps(d.bounds_of()),
{
    let dx = c.pos.x - d.pos.x;
    let dy = c.pos.y - d.pos.y;
    assert(sq(dy) >= 0 && sq(dx) >= 0) by (nonlinear_arith);
    lemma_sq_lt(dx, c.radius + d.radius);
    lemma_sq_lt(dy, c.radius + d.radius);
}

/// Something with an axis-aligned bounding box.
pub trait HasBounds {
    spec fn bounds_spec(&self) -> AABB;

    fn bounds(&self) -> (r: AABB)
        ensures
            r == self.bounds_spec(),
    ;
}

impl HasBounds for AABB {
    open spec fn bounds_spec(&self) -> AABB {
        *self
    }

    fn bounds(&self) -> (r: AABB) {
        *self
    }
}

} // verus!
