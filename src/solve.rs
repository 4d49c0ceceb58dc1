use vstd::prelude::*;
use crate::shapes::{AABB, Circle, Point, sq};

verus! {

/// A segment from `a` to `b`.
#[derive(Clone, Copy, Debug, PartialEq, Eq, Structural)]
pub struct Edge {
    pub a: Point,
    pub b: Point,
}

/// The cross product of `(ux, uy)` and `(vx, vy)`.
pub open spec fn cross(ux: int, uy: int, vx: int, vy: int) -> int {
    ux * vy - uy * vx
}

/// `num / den` lies in `[0, 1]` (and `den` is not zero).
pub open spec fn unit_ratio(num: int, den: int) -> bool {
    (den > 0 && 0 <= num <= den) || (den < 0 && den <= num <= 0)
}

/// The segments are not parallel and meet: the lines cross at
/// `e.a + t * (e.b - e.a) == f.a + u * (f.b - f.a)`, where (solving with
/// cross products) `t = cross(ac, cd) / den` and `u = cross(ac, ab) / den`
/// with `den = cross(ab, cd)`, and both lie in `[0, 1]`.
pub open spec fn edges_cross(e: Edge, f: Edge) -> bool {
    let (abx, aby) = (e.b.x - e.a.x, e.b.y - e.a.y);
    let (cdx, cdy) = (f.b.x - f.a.x, f.b.y - f.a.y);
    let (acx, acy) = (f.a.x - e.a.x, f.a.y - e.a.y);
    let den = cross(abx, aby, cdx, cdy);
    den != 0 && unit_ratio(cross(acx, acy, cdx, cdy), den) && unit_ratio(cross(acx, acy, abx, aby), den)
}

/// The point of segment `e` nearest to the centre of `c` is closer than the
/// radius. With `t` the parameter of the centre's projection on the line,
/// the nearest point is `a` for `t <= 0`, `b` for `t >= 1`, and the
/// projection itself in between, whose squared distance is
/// `cross(ab, ac)^2 / |ab|^2`.
pub open spec fn edge_meets_circle(e: Edge, c: Circle) -> bool {
    let (abx, aby) = (e.b.x - e.a.x, e.b.y - e.a.y);
    let (acx, acy) = (c.pos.x - e.a.x, c.pos.y - e.a.y);
    let dot = acx * abx + acy * aby;
    let len2 = abx * abx + aby * aby;
    if dot <= 0 {
        sq(acx) + sq(acy) < sq(c.radius as int)
    } else if dot >= len2 {
        sq(c.pos.x - e.b.x) + sq(c.pos.y - e.b.y) < sq(c.radius as int)
    } else {
        sq(cross(abx, aby, acx, acy)) < sq(c.radius as int) * len2
    }
}

pub open spec fn edges_of(b: AABB) -> Seq<Edge> {
    let bl = b.min;
    let br = Point { x: b.max.x, y: b.min.y };
    let tr = b.max;
    let tl = Point { x: b.min.x, y: b.max.y };
    seq![Edge { a: bl, b: br }, Edge { a: br, b: tr }, Edge { a: tr, b: tl }, Edge { a: tl, b: bl }]
}

pub open spec fn vertices_of(b: AABB) -> Seq<Point> {
    seq![b.min, Point { x: b.max.x, y: b.min.y }, b.max, Point { x: b.min.x, y: b.max.y }]
}

/// The perpendicular of an edge, turned a quarter to the left.
pub open spec fn normal_of(e: Edge) -> (int, int) {
    (-(e.b.y - e.a.y), e.b.x - e.a.x)
}

pub open spec fn dot(axis: (int, int), p: Point) -> int {
    axis.0 * p.x + axis.1 * p.y
}

/// On `axis`, every vertex of one set projects strictly beyond every vertex
/// of the other.
pub open spec fn separated_on(axis: (int, int), va: Seq<Point>, vb: Seq<Point>) -> bool {
    (forall|i: int, j: int| 0 <= i < va.len() && 0 <= j < vb.len() ==> dot(axis, #[trigger] va[i]) > dot(axis, #[trigger] vb[j]))
    || (forall|i: int, j: int| 0 <= i < va.len() && 0 <= j < vb.len() ==> dot(axis, #[trigger] vb[j]) > dot(axis, #[trigger] va[i]))
}

/// No normal of an edge of `a` separates the vertices of `a` from those of
/// `b`.
pub open spec fn no_separating_axis(a: AABB, b: AABB) -> bool {
    forall|k: int| 0 <= k < 4 ==> !separated_on(normal_of(#[trigger] edges_of(a)[k]), vertices_of(a), vertices_of(b))
}

impl Edge {
    /// The edge's normal, not scaled to unit length.
    pub fn perpendicular_dir(&self) -> (r: (i64, i64))
        ensures
            r.0 == normal_of(*self).0,
            r.1 == normal_of(*self).1,
    {
        (-(self.b.y as i64 - self.a.y as i64), self.b.x as i64 - self.a.x as i64)
    }

    pub fn overlaps_circle(&self, circle: &Circle) -> (r: bool)
        ensures
            r == edge_meets_circle(*self, *circle),
    {
        overlaps_edge_circle(self, circle)
    }

    pub fn overlaps_edge(&self, other: &Edge) -> (r: bool)
        ensures
            r == edges_cross(*self, *other),
    {
        overlaps_edge_edge(self, other)
    }
}

proof fn lemma_mul_bound(x: int, y: int, bx: int, by: int)
    requires
        -bx <= x <= bx,
        -by <= y <= by,
        bx >= 0,
        by >= 0,
    ensures
        -(bx * by) <= x * y <= bx * by,
{
    assert(-(bx * by) <= x * y <= bx * by) by (nonlinear_arith)
        requires
            -bx <= x <= bx,
            -by <= y <= by,
            bx >= 0,
            by >= 0,
    ;
}

fn cross_i128(ux: i128, uy: i128, vx: i128, vy: i128) -> (r: i128)
    requires
        -0x1_0000_0000 <= ux <= 0x1_0000_0000,
        -0x1_0000_0000 <= uy <= 0x1_0000_0000,
        -0x1_0000_0000 <= vx <= 0x1_0000_0000,
        -0x1_0000_0000 <= vy <= 0x1_0000_0000,
    ensures
        r == cross(ux as int, uy as int, vx as int, vy as int),
        -0x2_0000_0000_0000_0000 <= r <= 0x2_0000_0000_0000_0000,
{
    proof {
        lemma_mul_bound(ux as int, vy as int, 0x1_0000_0000, 0x1_0000_0000);
        lemma_mul_bound(uy as int, vx as int, 0x1_0000_0000, 0x1_0000_0000);
    }
    ux * vy - uy * vx
}

fn unit_ratio_exec(num: i128, den: i128) -> (r: bool)
    ensures
        r == unit_ratio(num as int, den as int),
{
    (den > 0 && 0 <= num && num <= den) || (den < 0 && den <= num && num <= 0)
}

/// Whether two segments cross; parallel segments never do.
pub fn overlaps_edge_edge(a: &Edge, b: &Edge) -> (r: bool)
    ensures
        r == edges_cross(*a, *b),
{
    let abx = a.b.x as i128 - a.a.x as i128;
    let aby = a.b.y as i128 - a.a.y as i128;
    let cdx = b.b.x as i128 - b.a.x as i128;
    let cdy = b.b.y as i128 - b.a.y as i128;
    let acx = b.a.x as i128 - a.a.x as i128;
    let acy = b.a.y as i128 - a.a.y as i128;
    let denominator = cross_i128(abx, aby, cdx, cdy);
    if denominator == 0 {
        return false;
    }
    let t = cross_i128(acx, acy, cdx, cdy);
    let u = cross_i128(acx, acy, abx, aby);
    unit_ratio_exec(t, denominator) && unit_ratio_exec(u, denominator)
}

/// Whether a segment comes closer to a circle's centre than its radius.
pub fn overlaps_edge_circle(a: &Edge, b: &Circle) -> (r: bool)
    ensures
        r == edge_meets_circle(*a, *b),
{
    let abx = a.b.x as i128 - a.a.x as i128;
    let aby = a.b.y as i128 - a.a.y as i128;
    let acx = b.pos.x as i128 - a.a.x as i128;
    let acy = b.pos.y as i128 - a.a.y as i128;
    let bcx = b.pos.x as i128 - a.b.x as i128;
    let bcy = b.pos.y as i128 - a.b.y as i128;
    let rr = b.radius as i128;
    proof {
        let m: int = 0x1_0000_0000;
        lemma_mul_bound(acx as int, abx as int, m, m);
        lemma_mul_bound(acy as int, aby as int, m, m);
        lemma_mul_bound(abx as int, abx as int, m, m);
        lemma_mul_bound(aby as int, aby as int, m, m);
        lemma_mul_bound(acx as int, acx as int, m, m);
        lemma_mul_bound(acy as int, acy as int, m, m);
        lemma_mul_bound(bcx as int, bcx as int, m, m);
        lemma_mul_bound(bcy as int, bcy as int, m, m);
        lemma_mul_bound(rr as int, rr as int, 0x8000_0000, 0x8000_0000);
        lemma_sq_nonneg(abx as int);
        lemma_sq_nonneg(aby as int);
        lemma_sq_nonneg(rr as int);
    }
    let dot = acx * abx + acy * aby;
    let len2 = abx * abx + aby * aby;
    let r2 = rr * rr;
    if dot <= 0 {
        acx * acx + acy * acy < r2
    } else if dot >= len2 {
        bcx * bcx + bcy * bcy < r2
    } else {
        proof {
            lemma_mul_bound(abx as int, acy as int, 0x1_0000_0000, 0x1_0000_0000);
            lemma_mul_bound(aby as int, acx as int, 0x1_0000_0000, 0x1_0000_0000);
        }
        let c = abx * acy - aby * acx;
        let c_abs: u128 = if c >= 0 { c as u128 } else { (-c) as u128 };
        let r2u = r2 as u128;
        let len2u = len2 as u128;
        proof {
            lemma_mul_bound(r2 as int, len2 as int, 0x4000_0000_0000_0000, 0x2_0000_0000_0000_0000);
            lemma_sq_nonneg(c as int);
            assert(sq(c as int) == (c_abs as int) * (c_abs as int)) by (nonlinear_arith)
                requires
                    c_abs as int == c || c_abs as int == -c,
            ;
        }
        let rl = r2u * len2u;
        if c_abs >= 0x1_0000_0000_0000_0000u128 {
            proof {
                assert((c_abs as int) * (c_abs as int) >= 0x1_0000_0000_0000_0000_0000_0000_0000_0000) by (nonlinear_arith)
                    requires
                        c_abs as int >= 0x1_0000_0000_0000_0000,
                ;
            }
            false
        } else {
            proof {
                lemma_mul_bound(c_abs as int, c_abs as int, 0xFFFF_FFFF_FFFF_FFFF, 0xFFFF_FFFF_FFFF_FFFF);
            }
            c_abs * c_abs < rl
        }
    }
}

proof fn lemma_sq_nonneg(x: int)
    ensures
        x * x >= 0,
{
    assert(x * x >= 0) by (nonlinear_arith);
}

impl AABB {
    /// The four sides, counter-clockwise from the bottom left corner.
    pub fn edges(&self) -> (r: Vec<Edge>)
        ensures
            r@ == edges_of(*self),
    {
        let (a, b, c, d) = (self.bottom_left(), self.bottom_right(), self.top_right(), self.top_left());
        let r = vec![Edge { a, b }, Edge { a: b, b: c }, Edge { a: c, b: d }, Edge { a: d, b: a }];
        assert(r@ =~= edges_of(*self));
        r
    }

    /// The four corners, counter-clockwise from the bottom left.
    pub fn vertices(&self) -> (r: Vec<Point>)
        ensures
            r@ == vertices_of(*self),
    {
        let r = vec![self.bottom_left(), self.bottom_right(), self.top_right(), self.top_left()];
        assert(r@ =~= vertices_of(*self));
        r
    }
}

/// Whether some side of `a` crosses the segment `b`.
pub fn overlaps_poly_edge(a: &AABB, b: &Edge) -> (r: bool)
    ensures
        r == exists|k: int| 0 <= k < 4 && edges_cross(#[trigger] edges_of(*a)[k], *b),
{
    let edges = a.edges();
    let mut k: usize = 0;
    while k < 4
        invariant
            edges@ == edges_of(*a),
            0 <= k <= 4,
            forall|j: int| 0 <= j < k ==> !edges_cross(#[trigger] edges_of(*a)[j], *b),
        decreases 4 - k,
    {
        if b.overlaps_edge(&edges[k]) {
            assert(edges_cross(edges_of(*a)[k as int], *b)) by {
                lemma_cross_symmetric(edges_of(*a)[k as int], *b);
            }
            return true;
        }
        proof {
            lemma_cross_symmetric(edges_of(*a)[k as int], *b);
        }
        k = k + 1;
    }
    false
}

/// Crossing does not depend on which segment comes first.
pub proof fn lemma_cross_symmetric(e: Edge, f: Edge)
    ensures
        edges_cross(e, f) == edges_cross(f, e),
{
    let (abx, aby) = (e.b.x - e.a.x, e.b.y - e.a.y);
    let (cdx, cdy) = (f.b.x - f.a.x, f.b.y - f.a.y);
    let (acx, acy) = (f.a.x - e.a.x, f.a.y - e.a.y);
    assert(cross(cdx, cdy, abx, aby) == -cross(abx, aby, cdx, cdy)) by (nonlinear_arith);
    assert(cross(-acx, -acy, abx, aby) == -cross(acx, acy, abx, aby)) by (nonlinear_arith);
    assert(cross(-acx, -acy, cdx, cdy) == -cross(acx, acy, cdx, cdy)) by (nonlinear_arith);
}

/// The least and greatest projection of `vs` on `axis`.
fn projection_range(axis: (i64, i64), vs: &Vec<Point>) -> (r: (i128, i128))
    requires
        vs@.len() > 0,
        -0x1_0000_0000 <= axis.0 <= 0x1_0000_0000,
        -0x1_0000_0000 <= axis.1 <= 0x1_0000_0000,
    ensures
        forall|i: int| 0 <= i < vs@.len() ==> r.0 <= dot((axis.0 as int, axis.1 as int), #[trigger] vs@[i]) <= r.1,
        exists|i: int| 0 <= i < vs@.len() && r.0 == dot((axis.0 as int, axis.1 as int), #[trigger] vs@[i]),
        exists|i: int| 0 <= i < vs@.len() && r.1 == dot((axis.0 as int, axis.1 as int), #[trigger] vs@[i]),
{
    let ghost ax = (axis.0 as int, axis.1 as int);
    let first = project(axis, vs[0]);
    let mut lo = first;
    let mut hi = first;
    let mut i: usize = 1;
    while i < vs.len()
        invariant
            1 <= i <= vs@.len(),
            ax == (axis.0 as int, axis.1 as int),
            -0x1_0000_0000 <= axis.0 <= 0x1_0000_0000,
            -0x1_0000_0000 <= axis.1 <= 0x1_0000_0000,
            forall|j: int| 0 <= j < i ==> lo <= dot(ax, #[trigger] vs@[j]) <= hi,
            exists|j: int| 0 <= j < i && lo == dot(ax, #[trigger] vs@[j]),
            exists|j: int| 0 <= j < i && hi == dot(ax, #[trigger] vs@[j]),
        decreases vs@.len() - i,
    {
        let d = project(axis, vs[i]);
        if d < lo {
            lo = d;
        }
        if d > hi {
            hi = d;
        }
        i = i + 1;
    }
    (lo, hi)
}

fn project(axis: (i64, i64), p: Point) -> (r: i128)
    requires
        -0x1_0000_0000 <= axis.0 <= 0x1_0000_0000,
        -0x1_0000_0000 <= axis.1 <= 0x1_0000_0000,
    ensures
        r == dot((axis.0 as int, axis.1 as int), p),
{
    proof {
        lemma_mul_bound(axis.0 as int, p.x as int, 0x1_0000_0000, 0x8000_0000);
        lemma_mul_bound(axis.1 as int, p.y as int, 0x1_0000_0000, 0x8000_0000);
    }
    axis.0 as i128 * p.x as i128 + axis.1 as i128 * p.y as i128
}

/// The separating-axis test of `a` against `b` on the normals of `a`'s
/// sides: true when no such normal separates their corners.
pub fn overlaps_poly_poly(a: &AABB, b: &AABB) -> (r: bool)
    ensures
        r == no_separating_axis(*a, *b),
{
    let self_edges = a.edges();
    let self_verts = a.vertices();
    let other_verts = b.vertices();
    let mut k: usize = 0;
    while k < 4
        invariant
            self_edges@ == edges_of(*a),
            self_verts@ == vertices_of(*a),
            other_verts@ == vertices_of(*b),
            0 <= k <= 4,
            forall|j: int| 0 <= j < k ==> !separated_on(normal_of(#[trigger] edges_of(*a)[j]), vertices_of(*a), vertices_of(*b)),
        decreases 4 - k,
    {
        let axis = self_edges[k].perpendicular_dir();
        let ghost ax = (axis.0 as int, axis.1 as int);
        let (min_self, max_self) = projection_range(axis, &self_verts);
        let (min_other, max_other) = projection_range(axis, &other_verts);
        let ghost va = vertices_of(*a);
        let ghost vb = vertices_of(*b);
        if min_self > max_other || min_other > max_self {
            proof {
                assert(ax == normal_of(edges_of(*a)[k as int]));
                if min_self > max_other {
                    assert(forall|i: int, j: int| 0 <= i < va.len() && 0 <= j < vb.len() ==> dot(ax, #[trigger] va[i]) > dot(ax, #[trigger] vb[j]));
                } else {
                    assert(forall|i: int, j: int| 0 <= i < va.len() && 0 <= j < vb.len() ==> dot(ax, #[trigger] vb[j]) > dot(ax, #[trigger] va[i]));
                }
            }
            return false;
        }
        proof {
            assert(ax == normal_of(edges_of(*a)[k as int]));
            let i1 = choose|i: int| 0 <= i < va.len() && min_self == dot(ax, #[trigger] va[i]);
            let i2 = choose|i: int| 0 <= i < va.len() && max_self == dot(ax, #[trigger] va[i]);
            let j1 = choose|j: int| 0 <= j < vb.len() && min_other == dot(ax, #[trigger] vb[j]);
            let j2 = choose|j: int| 0 <= j < vb.len() && max_other == dot(ax, #[trigger] vb[j]);
            assert(!(dot(ax, va[i1]) > dot(ax, vb[j2])));
            assert(!(dot(ax, vb[j1]) > dot(ax, va[i2])));
        }
        k = k + 1;
    }
    true
}

/// Whether the box and the circle overlap: the point of the box nearest
/// to the centre is closer than the radius, which also covers a circle
/// lying wholly inside the box; a circle that only touches the box does not
/// overlap it, as with the segment and circle tests.
pub fn overlaps_poly_circle(a: &AABB, b: &Circle) -> (r: bool)
    ensures
        r == b.meets_aabb_spec(*a),
{
    b.meets_aabb(a)
}

proof fn lemma_scaled(c: int, u: int, v: int)
    ensures
        c > 0 ==> (c * u > c * v <==> u > v),
        c < 0 ==> (c * u > c * v <==> u < v),
{
    if c > 0 {
        if u > v {
            assert(c * u > c * v) by (nonlinear_arith)
                requires
                    c > 0,
                    u > v,
            ;
        } else {
            assert(c * u <= c * v) by (nonlinear_arith)
                requires
                    c > 0,
                    u <= v,
            ;
        }
    }
    if c < 0 {
        if u < v {
            assert(c * u > c * v) by (nonlinear_arith)
                requires
                    c < 0,
                    u < v,
            ;
        } else {
            assert(c * u <= c * v) by (nonlinear_arith)
                requires
                    c < 0,
                    u >= v,
            ;
        }
    }
}

/// On an axis along `y` scaled by `c != 0`, the corners of two proper boxes
/// are separated exactly when their `y` ranges are disjoint.
proof fn lemma_separated_y(c: int, a: AABB, b: AABB)
    requires
        c != 0,
        a.wf(),
        b.wf(),
    ensures
        separated_on((0, c), vertices_of(a), vertices_of(b)) <==> (a.min.y > b.max.y || b.min.y > a.max.y),
{
    let (va, vb) = (vertices_of(a), vertices_of(b));
    assert forall|p: Point| #[trigger] dot((0, c), p) == c * p.y by {
        let z: int = 0;
        assert(z * p.x == 0) by (nonlinear_arith)
            requires
                z == 0,
        ;
    }
    lemma_scaled(c, a.min.y as int, b.max.y as int);
    lemma_scaled(c, b.min.y as int, a.max.y as int);
    lemma_scaled(c, a.max.y as int, b.min.y as int);
    lemma_scaled(c, b.max.y as int, a.min.y as int);
    assert forall|i: int, j: int| 0 <= i < 4 && 0 <= j < 4 implies
        (a.min.y <= #[trigger] va[i].y <= a.max.y && b.min.y <= #[trigger] vb[j].y <= b.max.y) by {}
    if a.min.y > b.max.y || b.min.y > a.max.y {
        if c > 0 && a.min.y > b.max.y {
            assert forall|i: int, j: int| 0 <= i < va.len() && 0 <= j < vb.len() implies dot((0, c), #[trigger] va[i]) > dot((0, c), #[trigger] vb[j]) by {
                lemma_scaled(c, va[i].y as int, vb[j].y as int);
            }
        } else if c > 0 {
            assert forall|i: int, j: int| 0 <= i < va.len() && 0 <= j < vb.len() implies dot((0, c), #[trigger] vb[j]) > dot((0, c), #[trigger] va[i]) by {
                lemma_scaled(c, vb[j].y as int, va[i].y as int);
            }
        } else if a.min.y > b.max.y {
            assert forall|i: int, j: int| 0 <= i < va.len() && 0 <= j < vb.len() implies dot((0, c), #[trigger] vb[j]) > dot((0, c), #[trigger] va[i]) by {
                lemma_scaled(c, vb[j].y as int, va[i].y as int);
            }
        } else {
            assert forall|i: int, j: int| 0 <= i < va.len() && 0 <= j < vb.len() implies dot((0, c), #[trigger] va[i]) > dot((0, c), #[trigger] vb[j]) by {
                lemma_scaled(c, va[i].y as int, vb[j].y as int);
            }
        }
    } else {
        if separated_on((0, c), va, vb) {
            if c > 0 {
                assert(dot((0, c), va[0]) > dot((0, c), vb[2]) || dot((0, c), vb[0]) > dot((0, c), va[2]));
            } else {
                assert(dot((0, c), va[2]) > dot((0, c), vb[0]) || dot((0, c), vb[2]) > dot((0, c), va[0]));
            }
        }
    }
}

/// On an axis along `x` scaled by `c != 0`, the corners of two proper boxes
/// are separated exactly when their `x` ranges are disjoint.
proof fn lemma_separated_x(c: int, a: AABB, b: AABB)
    requires
        c != 0,
        a.wf(),
        b.wf(),
    ensures
        separated_on((c, 0), vertices_of(a), vertices_of(b)) <==> (a.min.x > b.max.x || b.min.x > a.max.x),
{
    let (va, vb) = (vertices_of(a), vertices_of(b));
    assert forall|p: Point| #[trigger] dot((c, 0), p) == c * p.x by {
        let z: int = 0;
        assert(z * p.y == 0) by (nonlinear_arith)
            requires
                z == 0,
        ;
    }
    assert forall|i: int, j: int| 0 <= i < 4 && 0 <= j < 4 implies
        (a.min.x <= #[trigger] va[i].x <= a.max.x && b.min.x <= #[trigger] vb[j].x <= b.max.x) by {}
    if a.min.x > b.max.x || b.min.x > a.max.x {
        if c > 0 && a.min.x > b.max.x {
            assert forall|i: int, j: int| 0 <= i < va.len() && 0 <= j < vb.len() implies dot((c, 0), #[trigger] va[i]) > dot((c, 0), #[trigger] vb[j]) by {
                lemma_scaled(c, va[i].x as int, vb[j].x as int);
            }
        } else if c > 0 {
            assert forall|i: int, j: int| 0 <= i < va.len() && 0 <= j < vb.len() implies dot((c, 0), #[trigger] vb[j]) > dot((c, 0), #[trigger] va[i]) by {
                lemma_scaled(c, vb[j].x as int, va[i].x as int);
            }
        } else if a.min.x > b.max.x {
            assert forall|i: int, j: int| 0 <= i < va.len() && 0 <= j < vb.len() implies dot((c, 0), #[trigger] vb[j]) > dot((c, 0), #[trigger] va[i]) by {
                lemma_scaled(c, vb[j].x as int, va[i].x as int);
            }
        } else {
            assert forall|i: int, j: int| 0 <= i < va.len() && 0 <= j < vb.len() implies dot((c, 0), #[trigger] va[i]) > dot((c, 0), #[trigger] vb[j]) by {
                lemma_scaled(c, va[i].x as int, vb[j].x as int);
            }
        }
    } else {
        if separated_on((c, 0), va, vb) {
            lemma_scaled(c, a.min.x as int, b.max.x as int);
            lemma_scaled(c, b.min.x as int, a.max.x as int);
            lemma_scaled(c, a.max.x as int, b.min.x as int);
            lemma_scaled(c, b.max.x as int, a.min.x as int);
            if c > 0 {
                assert(dot((c, 0), va[0]) > dot((c, 0), vb[2]) || dot((c, 0), vb[0]) > dot((c, 0), va[2]));
            } else {
                assert(dot((c, 0), va[2]) > dot((c, 0), vb[0]) || dot((c, 0), vb[2]) > dot((c, 0), va[0]));
            }
        }
    }
}

/// For a box with positive width and height, the separating-axis test on
/// its sides agrees with the overlap of the two boxes.
pub proof fn lemma_poly_poly_is_overlap(a: AABB, b: AABB)
    requires
        a.min.x < a.max.x,
        a.min.y < a.max.y,
        b.wf(),
    ensures
        no_separating_axis(a, b) == a.overlaps(b),
{
    let w = a.max.x - a.min.x;
    let h = a.max.y - a.min.y;
    let es = edges_of(a);
    assert(normal_of(es[0]) == (0int, w));
    assert(normal_of(es[1]) == (-h, 0int));
    assert(normal_of(es[2]) == (0int, -w));
    assert(normal_of(es[3]) == (h, 0int));
    lemma_separated_y(w, a, b);
    lemma_separated_y(-w, a, b);
    lemma_separated_x(-h, a, b);
    lemma_separated_x(h, a, b);
    if a.overlaps(b) {
        assert forall|k: int| 0 <= k < 4 implies !separated_on(normal_of(#[trigger] edges_of(a)[k]), vertices_of(a), vertices_of(b)) by {}
    } else {
        if !(a.min.x <= b.max.x && a.max.x >= b.min.x) {
            assert(separated_on(normal_of(edges_of(a)[3]), vertices_of(a), vertices_of(b)));
        } else {
            assert(separated_on(normal_of(edges_of(a)[0]), vertices_of(a), vertices_of(b)));
        }
    }
}

} // verus!
