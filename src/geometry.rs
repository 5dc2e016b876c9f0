use vstd::prelude::*;

verus! {

/// Largest magnitude of a position coordinate.
pub const MAX_COORD: i64 = 1073741824;

/// Largest length or width of a rectangle.
pub const MAX_SIDE: i64 = 65536;

/// Largest hypotenuse of a rotation.
pub const MAX_HYP: i64 = 1024;

/// Largest radius of a circle.
pub const MAX_RADIUS: i64 = 1048576;

/// Largest tolerance accepted by the intersection tests.
pub const MAX_EPSILON: i64 = 4294967296;

/// Largest magnitude of a coordinate of a point handed to the circle-line
/// test (vertices are scaled by at most `2 * MAX_HYP`).
pub const MAX_SCALED_COORD: i64 = 4398046511104;

/// A point of the integer plane.
#[derive(Clone, Copy, Debug, PartialEq, Eq, Structural)]
pub struct Point {
    pub x: i64,
    pub y: i64,
}

impl Point {
    pub open spec fn in_range(self) -> bool {
        -MAX_COORD <= self.x <= MAX_COORD && -MAX_COORD <= self.y <= MAX_COORD
    }

    pub fn new(x: i64, y: i64) -> (p: Point)
        ensures
            p.x == x,
            p.y == y,
    {
        Point { x, y }
    }
}

/// A rotation through the angle whose cosine is `cos / hyp` and whose sine
/// is `sin / hyp`.  With `cos² + sin² == hyp²` it is exact: rotated points
/// are integers once scaled by `hyp`.
#[derive(Clone, Copy, Debug, PartialEq, Eq, Structural)]
pub struct Rotation {
    pub cos: i64,
    pub sin: i64,
    pub hyp: i64,
}

impl Rotation {
    pub open spec fn wf(self) -> bool {
        &&& 0 < self.hyp <= MAX_HYP
        &&& -self.hyp <= self.cos <= self.hyp
        &&& -self.hyp <= self.sin <= self.hyp
        &&& self.cos * self.cos + self.sin * self.sin == self.hyp * self.hyp
    }

    /// No rotation.
    pub fn identity() -> (r: Rotation)
        ensures
            r.wf(),
            r.cos == 1 && r.sin == 0 && r.hyp == 1,
    {
        Rotation { cos: 1, sin: 0, hyp: 1 }
    }

    /// The rotation through twice the angle whose tangent is `num / den`:
    /// `cos = den² − num²`, `sin = 2·num·den`, `hyp = den² + num²`.  Every
    /// exact rotation arises this way, and any angle is approached as
    /// closely as the bound on `hyp` allows.
    pub fn from_half_angle_tangent(num: i64, den: i64) -> (r: Rotation)
        requires
            num != 0 || den != 0,
            num * num + den * den <= MAX_HYP,
        ensures
            r.wf(),
            r.cos == den * den - num * num,
            r.sin == 2 * num * den,
            r.hyp == den * den + num * num,
    {
        assert(num * num >= 0 && den * den >= 0) by (nonlinear_arith);
        assert(num * num <= MAX_HYP && den * den <= MAX_HYP);
        assert(-MAX_HYP <= num <= MAX_HYP && -MAX_HYP <= den <= MAX_HYP) by (nonlinear_arith)
            requires num * num <= MAX_HYP, den * den <= MAX_HYP;
        let nn = num * num;
        let dd = den * den;
        assert(nn > 0 || dd > 0) by (nonlinear_arith)
            requires num != 0 || den != 0, nn == num * num, dd == den * den;
        assert((dd - nn) * (dd - nn) + (2 * num * den) * (2 * num * den) == (dd + nn) * (dd + nn)) by (nonlinear_arith)
            requires nn == num * num, dd == den * den;
        assert(-(dd + nn) <= 2 * num * den <= dd + nn) by (nonlinear_arith)
            requires nn == num * num, dd == den * den;
        let s = 2 * num * den;
        Rotation { cos: dd - nn, sin: s, hyp: dd + nn }
    }
}

/// An oriented rectangle: `width` along its local x axis and `length` along
/// its local y axis, turned by `rotation` about its center.
#[derive(Clone, Copy, Debug, PartialEq, Eq, Structural)]
pub struct Rectangle {
    pub center: Point,
    pub length: i64,
    pub width: i64,
    pub rotation: Rotation,
}

/// A circle.
#[derive(Clone, Copy, Debug, PartialEq, Eq, Structural)]
pub struct Circle {
    pub center: Point,
    pub radius: i64,
}

/// The product of two pairs, `a·b`.
pub open spec fn dot(ax: int, ay: int, bx: int, by: int) -> int {
    ax * bx + ay * by
}

/// The cross product of two pairs.
pub open spec fn cross(ax: int, ay: int, bx: int, by: int) -> int {
    ax * by - bx * ay
}

pub open spec fn abs(v: int) -> int {
    if v < 0 {
        -v
    } else {
        v
    }
}

/// Corner `i` in local coordinates, doubled so that it is an integer:
/// clockwise from the top left, `(−w, −l)`, `(w, −l)`, `(w, l)`, `(−w, l)`.
pub open spec fn local_corner(r: Rectangle, i: int) -> (int, int) {
    if i == 0 {
        (-r.width as int, -r.length as int)
    } else if i == 1 {
        (r.width as int, -r.length as int)
    } else if i == 2 {
        (r.width as int, r.length as int)
    } else {
        (-r.width as int, r.length as int)
    }
}

/// Corner `i` after rotation and translation, in units of
/// `1 / vertex_scale(r)`.
pub open spec fn vertex(r: Rectangle, i: int) -> (int, int) {
    let (ex, ey) = local_corner(r, i);
    let c = r.rotation.cos as int;
    let s = r.rotation.sin as int;
    (vertex_scale(r) * r.center.x + c * ex - s * ey, vertex_scale(r) * r.center.y + s * ex + c * ey)
}

/// The scale of the vertices: twice the rotation's hypotenuse.
pub open spec fn vertex_scale(r: Rectangle) -> int {
    2 * r.rotation.hyp
}

/// The projection test of `m` (given at scale `vertex_scale(r)`) against the
/// rectangle: `0 ≤ AB·AM ≤ AB·AB` and `0 ≤ BC·BM ≤ BC·BC`, each bound
/// loosened by `eps`.
pub open spec fn projection_test(r: Rectangle, mx: int, my: int, eps: int) -> bool {
    let (ax, ay) = vertex(r, 0);
    let (bx, by) = vertex(r, 1);
    let (cx, cy) = vertex(r, 2);
    let ab_am = dot(bx - ax, by - ay, mx - ax, my - ay);
    let ab_ab = dot(bx - ax, by - ay, bx - ax, by - ay);
    let bc_bm = dot(cx - bx, cy - by, mx - bx, my - by);
    &&& ab_am >= 0 || abs(ab_am) <= eps
    &&& ab_am <= dot(bx - ax, by - ay, bx - ax, by - ay) + eps
    &&& bc_bm >= 0 || abs(bc_bm) <= eps
    &&& bc_bm <= dot(cx - bx, cy - by, cx - bx, cy - by) + eps
}

/// Whether the point lies in the rectangle, within tolerance `eps`.
pub open spec fn contains_point(r: Rectangle, p: Point, eps: int) -> bool {
    projection_test(r, vertex_scale(r) * p.x, vertex_scale(r) * p.y, eps)
}

/// Whether the circle meets the infinite line through `a` and `b`, all
/// three given at `scale`: `r²·|AB|² − det² ≥ 0`, or within `eps` of it.
pub open spec fn meets_line(c: Circle, scale: int, ax: int, ay: int, bx: int, by: int, eps: int) -> bool {
    let tax = ax - scale * c.center.x;
    let tay = ay - scale * c.center.y;
    let tbx = bx - scale * c.center.x;
    let tby = by - scale * c.center.y;
    let r = scale * c.radius;
    let dr2 = dot(bx - ax, by - ay, bx - ax, by - ay);
    let det = cross(tax, tay, tbx, tby);
    let discriminant = r * r * dr2 - det * det;
    discriminant >= 0 || abs(discriminant) < eps
}

impl Rectangle {
    pub open spec fn wf(self) -> bool {
        &&& self.center.in_range()
        &&& 0 <= self.length <= MAX_SIDE
        &&& 0 <= self.width <= MAX_SIDE
        &&& self.rotation.wf()
    }
}

impl Circle {
    pub open spec fn wf(self) -> bool {
        &&& self.center.in_range()
        &&& 0 <= self.radius <= MAX_RADIUS
    }
}

/// Tolerance of `is_intersect_point` and `is_intersect_line`.  Coordinates
/// are integers and the arithmetic is exact, so there is no rounding to
/// absorb: points on the boundary count as inside, and tangent lines as
/// meeting, with no allowance.
pub const EPSILON: i64 = 0;

/// Whether the circle meets the rectangle: its center lies in the
/// rectangle, or it meets one of the four lines through the rectangle's
/// edges.  The edges are taken as infinite lines, so a circle that meets
/// such a line beyond the end of the edge counts as well: this test may
/// answer yes for a circle near the rectangle that does not touch it.
pub open spec fn rect_meets_circle(r: Rectangle, c: Circle) -> bool {
    let s = vertex_scale(r);
    let (ax, ay) = vertex(r, 0);
    let (bx, by) = vertex(r, 1);
    let (cx, cy) = vertex(r, 2);
    let (dx, dy) = vertex(r, 3);
    ||| contains_point(r, c.center, EPSILON as int)
    ||| meets_line(c, s, ax, ay, bx, by, EPSILON as int)
    ||| meets_line(c, s, bx, by, cx, cy, EPSILON as int)
    ||| meets_line(c, s, cx, cy, dx, dy, EPSILON as int)
    ||| meets_line(c, s, dx, dy, ax, ay, EPSILON as int)
}

pub open spec fn in_scaled_range(p: Point) -> bool {
    -MAX_SCALED_COORD <= p.x <= MAX_SCALED_COORD && -MAX_SCALED_COORD <= p.y <= MAX_SCALED_COORD
}

proof fn lemma_vertex_in_range(r: Rectangle, i: int)
    requires
        r.wf(),
    ensures
        -MAX_SCALED_COORD <= vertex(r, i).0 <= MAX_SCALED_COORD,
        -MAX_SCALED_COORD <= vertex(r, i).1 <= MAX_SCALED_COORD,
{
    let (ex, ey) = local_corner(r, i);
    let c = r.rotation.cos as int;
    let s = r.rotation.sin as int;
    let h = r.rotation.hyp as int;
    let k = vertex_scale(r);
    assert(-MAX_SIDE <= ex <= MAX_SIDE && -MAX_SIDE <= ey <= MAX_SIDE);
    assert(-MAX_HYP * MAX_SIDE <= c * ex <= MAX_HYP * MAX_SIDE) by (nonlinear_arith)
        requires -h <= c <= h, 0 < h <= MAX_HYP, -MAX_SIDE <= ex <= MAX_SIDE;
    assert(-MAX_HYP * MAX_SIDE <= s * ey <= MAX_HYP * MAX_SIDE) by (nonlinear_arith)
        requires -h <= s <= h, 0 < h <= MAX_HYP, -MAX_SIDE <= ey <= MAX_SIDE;
    assert(-MAX_HYP * MAX_SIDE <= s * ex <= MAX_HYP * MAX_SIDE) by (nonlinear_arith)
        requires -h <= s <= h, 0 < h <= MAX_HYP, -MAX_SIDE <= ex <= MAX_SIDE;
    assert(-MAX_HYP * MAX_SIDE <= c * ey <= MAX_HYP * MAX_SIDE) by (nonlinear_arith)
        requires -h <= c <= h, 0 < h <= MAX_HYP, -MAX_SIDE <= ey <= MAX_SIDE;
    assert(-2 * MAX_HYP * MAX_COORD <= k * r.center.x <= 2 * MAX_HYP * MAX_COORD) by (nonlinear_arith)
        requires k == 2 * h, 0 < h <= MAX_HYP, -MAX_COORD <= r.center.x <= MAX_COORD;
    assert(-2 * MAX_HYP * MAX_COORD <= k * r.center.y <= 2 * MAX_HYP * MAX_COORD) by (nonlinear_arith)
        requires k == 2 * h, 0 < h <= MAX_HYP, -MAX_COORD <= r.center.y <= MAX_COORD;
}

impl Rectangle {
    /// The scale of the vertices that `get_transformed_vertices` returns.
    pub fn vertex_scale(&self) -> (s: i64)
        requires
            self.wf(),
        ensures
            s == vertex_scale(*self),
            2 <= s <= 2 * MAX_HYP,
    {
        2 * self.rotation.hyp
    }

    /// The four corners in local coordinates, doubled so that they are
    /// integers: clockwise from the top left.
    pub fn get_vertices(&self) -> (v: [Point; 4])
        requires
            self.wf(),
        ensures
            forall|i: int| 0 <= i < 4 ==> v@[i].x == local_corner(*self, i).0 && v@[i].y == local_corner(*self, i).1,
    {
        let w = self.width;
        let l = self.length;
        [Point { x: -w, y: -l }, Point { x: w, y: -l }, Point { x: w, y: l }, Point { x: -w, y: l }]
    }

    /// The four corners, rotated about the center and moved to it, in units
    /// of `1 / vertex_scale()`: clockwise from the top left.
    pub fn get_transformed_vertices(&self) -> (v: [Point; 4])
        requires
            self.wf(),
        ensures
            forall|i: int| 0 <= i < 4 ==> v@[i].x == vertex(*self, i).0 && v@[i].y == vertex(*self, i).1,
            forall|i: int| 0 <= i < 4 ==> in_scaled_range(#[trigger] v@[i]),
    {
        let corners = self.get_vertices();
        let a = self.transform(corners[0], Ghost(0));
        let b = self.transform(corners[1], Ghost(1));
        let c = self.transform(corners[2], Ghost(2));
        let d = self.transform(corners[3], Ghost(3));
        [a, b, c, d]
    }

    fn transform(&self, e: Point, Ghost(i): Ghost<int>) -> (v: Point)
        requires
            self.wf(),
            0 <= i < 4,
            e.x == local_corner(*self, i).0,
            e.y == local_corner(*self, i).1,
        ensures
            v.x == vertex(*self, i).0,
            v.y == vertex(*self, i).1,
            in_scaled_range(v),
    {
        proof {
            lemma_vertex_in_range(*self, i);
        }
        let k = self.vertex_scale();
        let c = self.rotation.cos;
        let s = self.rotation.sin;
        let h = self.rotation.hyp;
        assert(-MAX_HYP * MAX_SIDE <= c * e.x <= MAX_HYP * MAX_SIDE) by (nonlinear_arith)
            requires -h <= c <= h, 0 < h <= MAX_HYP, -MAX_SIDE <= e.x <= MAX_SIDE;
        assert(-MAX_HYP * MAX_SIDE <= s * e.y <= MAX_HYP * MAX_SIDE) by (nonlinear_arith)
            requires -h <= s <= h, 0 < h <= MAX_HYP, -MAX_SIDE <= e.y <= MAX_SIDE;
        assert(-MAX_HYP * MAX_SIDE <= s * e.x <= MAX_HYP * MAX_SIDE) by (nonlinear_arith)
            requires -h <= s <= h, 0 < h <= MAX_HYP, -MAX_SIDE <= e.x <= MAX_SIDE;
        assert(-MAX_HYP * MAX_SIDE <= c * e.y <= MAX_HYP * MAX_SIDE) by (nonlinear_arith)
            requires -h <= c <= h, 0 < h <= MAX_HYP, -MAX_SIDE <= e.y <= MAX_SIDE;
        assert(-2 * MAX_HYP * MAX_COORD <= k * self.center.x <= 2 * MAX_HYP * MAX_COORD) by (nonlinear_arith)
            requires k == 2 * h, 0 < h <= MAX_HYP, -MAX_COORD <= self.center.x <= MAX_COORD;
        assert(-2 * MAX_HYP * MAX_COORD <= k * self.center.y <= 2 * MAX_HYP * MAX_COORD) by (nonlinear_arith)
            requires k == 2 * h, 0 < h <= MAX_HYP, -MAX_COORD <= self.center.y <= MAX_COORD;
        Point {
            x: k * self.center.x + c * e.x - s * e.y,
            y: k * self.center.y + s * e.x + c * e.y,
        }
    }

    /// Whether `point` lies in the rectangle: its projections on the edges
    /// `AB` and `BC` fall within the edges, each bound loosened by `epsilon`.
    /// The projections are dot products of vectors given at scale
    /// `vertex_scale()`, so `epsilon` is in squared coordinate units times
    /// `vertex_scale()²`.
    pub fn is_intersect_point_with_epsilon(&self, point: Point, epsilon: i64) -> (r: bool)
        requires
            self.wf(),
            point.in_range(),
            0 <= epsilon <= MAX_EPSILON,
        ensures
            r == contains_point(*self, point, epsilon as int),
    {
        let v = self.get_transformed_vertices();
        let k = self.vertex_scale();
        assert(-2 * MAX_HYP * MAX_COORD <= k * point.x <= 2 * MAX_HYP * MAX_COORD) by (nonlinear_arith)
            requires 2 <= k <= 2 * MAX_HYP, -MAX_COORD <= point.x <= MAX_COORD;
        assert(-2 * MAX_HYP * MAX_COORD <= k * point.y <= 2 * MAX_HYP * MAX_COORD) by (nonlinear_arith)
            requires 2 <= k <= 2 * MAX_HYP, -MAX_COORD <= point.y <= MAX_COORD;
        let m = Point { x: k * point.x, y: k * point.y };
        let a = v[0];
        let b = v[1];
        let c = v[2];
        assert(in_scaled_range(v@[0]) && in_scaled_range(v@[1]) && in_scaled_range(v@[2]));
        let ab_am = dot_of(b.x - a.x, b.y - a.y, m.x - a.x, m.y - a.y);
        let ab_ab = dot_of(b.x - a.x, b.y - a.y, b.x - a.x, b.y - a.y);
        let bc_bm = dot_of(c.x - b.x, c.y - b.y, m.x - b.x, m.y - b.y);
        let bc_bc = dot_of(c.x - b.x, c.y - b.y, c.x - b.x, c.y - b.y);
        let eps = epsilon as i128;
        (ab_am >= 0 || abs_of(ab_am) <= eps) && ab_am <= ab_ab + eps && (bc_bm >= 0 || abs_of(bc_bm) <= eps)
            && bc_bm <= bc_bc + eps
    }

    /// Whether `point` lies in the rectangle, the boundary included.
    pub fn is_intersect_point(&self, point: Point) -> (r: bool)
        requires
            self.wf(),
            point.in_range(),
        ensures
            r == contains_point(*self, point, EPSILON as int),
    {
        self.is_intersect_point_with_epsilon(point, EPSILON)
    }
}

/// `a·b` for pairs of magnitude at most `2^44`.
fn dot_of(ax: i64, ay: i64, bx: i64, by: i64) -> (r: i128)
    requires
        -0x1000_0000_0000 <= ax <= 0x1000_0000_0000,
        -0x1000_0000_0000 <= ay <= 0x1000_0000_0000,
        -0x1000_0000_0000 <= bx <= 0x1000_0000_0000,
        -0x1000_0000_0000 <= by <= 0x1000_0000_0000,
    ensures
        r == dot(ax as int, ay as int, bx as int, by as int),
        -0x200_0000_0000_0000_0000_0000 <= r <= 0x200_0000_0000_0000_0000_0000,
{
    let ax = ax as i128;
    let ay = ay as i128;
    let bx = bx as i128;
    let by = by as i128;
    assert(-0x100_0000_0000_0000_0000_0000 <= ax * bx <= 0x100_0000_0000_0000_0000_0000) by (nonlinear_arith)
        requires -0x1000_0000_0000 <= ax <= 0x1000_0000_0000, -0x1000_0000_0000 <= bx <= 0x1000_0000_0000;
    assert(-0x100_0000_0000_0000_0000_0000 <= ay * by <= 0x100_0000_0000_0000_0000_0000) by (nonlinear_arith)
        requires -0x1000_0000_0000 <= ay <= 0x1000_0000_0000, -0x1000_0000_0000 <= by <= 0x1000_0000_0000;
    ax * bx + ay * by
}

fn abs_of(v: i128) -> (r: i128)
    requires
        v > i128::MIN,
    ensures
        r == abs(v as int),
{
    if v < 0 {
        -v
    } else {
        v
    }
}

impl Circle {
    /// Whether the circle meets the infinite line through `a` and `b`
    /// (tangent lines included, and misses by less than `epsilon` in the
    /// discriminant `r²·|AB|² − det²`, a quantity in fourth powers of
    /// coordinate units).
    pub fn is_intersect_line_with_epsilon(&self, a: Point, b: Point, epsilon: i64) -> (r: bool)
        requires
            self.wf(),
            a.in_range(),
            b.in_range(),
            0 <= epsilon <= MAX_EPSILON,
        ensures
            r == meets_line(*self, 1, a.x as int, a.y as int, b.x as int, b.y as int, epsilon as int),
    {
        assert(dot(b.x - a.x, b.y - a.y, b.x - a.x, b.y - a.y) <= 0x8000_0000_0000_0000) by (nonlinear_arith)
            requires a.in_range(), b.in_range();
        self.meets_scaled_line(a, b, 1, epsilon)
    }

    /// Whether the circle meets the infinite line through `a` and `b`,
    /// tangent lines included.
    pub fn is_intersect_line(&self, a: Point, b: Point) -> (r: bool)
        requires
            self.wf(),
            a.in_range(),
            b.in_range(),
        ensures
            r == meets_line(*self, 1, a.x as int, a.y as int, b.x as int, b.y as int, EPSILON as int),
    {
        self.is_intersect_line_with_epsilon(a, b, EPSILON)
    }

    /// `meets_line` for `a` and `b` given at `scale`.
    fn meets_scaled_line(&self, a: Point, b: Point, scale: i64, epsilon: i64) -> (r: bool)
        requires
            self.wf(),
            in_scaled_range(a),
            in_scaled_range(b),
            1 <= scale <= 2 * MAX_HYP,
            dot(b.x - a.x, b.y - a.y, b.x - a.x, b.y - a.y) <= 0x8000_0000_0000_0000,
            0 <= epsilon <= MAX_EPSILON,
        ensures
            r == meets_line(*self, scale as int, a.x as int, a.y as int, b.x as int, b.y as int, epsilon as int),
    {
        let cx = self.center.x;
        let cy = self.center.y;
        assert(-2 * MAX_HYP * MAX_COORD <= scale * cx <= 2 * MAX_HYP * MAX_COORD) by (nonlinear_arith)
            requires 1 <= scale <= 2 * MAX_HYP, -MAX_COORD <= cx <= MAX_COORD;
        assert(-2 * MAX_HYP * MAX_COORD <= scale * cy <= 2 * MAX_HYP * MAX_COORD) by (nonlinear_arith)
            requires 1 <= scale <= 2 * MAX_HYP, -MAX_COORD <= cy <= MAX_COORD;
        assert(0 <= scale * self.radius <= 2 * MAX_HYP * MAX_RADIUS) by (nonlinear_arith)
            requires 1 <= scale <= 2 * MAX_HYP, 0 <= self.radius <= MAX_RADIUS;
        let tax = a.x - scale * cx;
        let tay = a.y - scale * cy;
        let tbx = b.x - scale * cx;
        let tby = b.y - scale * cy;
        let rr = (scale * self.radius) as i128;
        let dr2 = dot_of(b.x - a.x, b.y - a.y, b.x - a.x, b.y - a.y);
        let det = dot_of(tax, -tay, tby, tbx);
        assert(det == cross(tax as int, tay as int, tbx as int, tby as int)) by (nonlinear_arith)
            requires det == tax * tby + (-tay) * tbx;
        assert(dr2 >= 0) by (nonlinear_arith)
            requires dr2 == (b.x - a.x) * (b.x - a.x) + (b.y - a.y) * (b.y - a.y);
        assert(0 <= rr * rr <= 0x4000_0000_0000_0000) by (nonlinear_arith)
            requires 0 <= rr <= 2 * MAX_HYP * MAX_RADIUS;
        let r2 = rr * rr;
        assert(0 <= r2 * dr2 <= 0x2000_0000_0000_0000_0000_0000_0000_0000) by (nonlinear_arith)
            requires 0 <= r2 <= 0x4000_0000_0000_0000, 0 <= dr2 <= 0x8000_0000_0000_0000;
        let r2_dr2 = r2 * dr2;
        if det >= 0x8000_0000_0000_0000 || det <= -0x8000_0000_0000_0000 {
            assert(det * det >= 0x4000_0000_0000_0000_0000_0000_0000_0000) by (nonlinear_arith)
                requires det >= 0x8000_0000_0000_0000 || det <= -0x8000_0000_0000_0000;
            return false;
        }
        assert(0 <= det * det <= 0x4000_0000_0000_0000_0000_0000_0000_0000) by (nonlinear_arith)
            requires -0x8000_0000_0000_0000 < det < 0x8000_0000_0000_0000;
        let discriminant = r2_dr2 - det * det;
        discriminant >= 0 || abs_of(discriminant) < epsilon as i128
    }
}

/// Each edge of a well-formed rectangle, from vertex `i` to the next, has
/// squared length `4·side²·hyp²`.
proof fn lemma_edge_length(r: Rectangle, i: int)
    requires
        r.wf(),
        0 <= i < 4,
    ensures
        ({
            let (ax, ay) = vertex(r, i);
            let (bx, by) = vertex(r, (i + 1) % 4);
            dot(bx - ax, by - ay, bx - ax, by - ay) <= 0x8000_0000_0000_0000
        }),
{
    let c = r.rotation.cos as int;
    let s = r.rotation.sin as int;
    let h = r.rotation.hyp as int;
    let w = r.width as int;
    let l = r.length as int;
    let (ax, ay) = vertex(r, i);
    let (bx, by) = vertex(r, (i + 1) % 4);
    let side = if i % 2 == 0 { w } else { l };
    let ex = bx - ax;
    let ey = by - ay;
    if i == 0 {
        assert(ex == 2 * w * c && ey == 2 * w * s) by (nonlinear_arith)
            requires ex == (c * w - s * (-l)) - (c * (-w) - s * (-l)), ey == (s * w + c * (-l)) - (s * (-w) + c * (-l));
        assert(ex * ex + ey * ey == 4 * w * w * (c * c + s * s)) by (nonlinear_arith)
            requires ex == 2 * w * c, ey == 2 * w * s;
    } else if i == 1 {
        assert(ex == -2 * l * s && ey == 2 * l * c) by (nonlinear_arith)
            requires ex == (c * w - s * l) - (c * w - s * (-l)), ey == (s * w + c * l) - (s * w + c * (-l));
        assert(ex * ex + ey * ey == 4 * l * l * (c * c + s * s)) by (nonlinear_arith)
            requires ex == -2 * l * s, ey == 2 * l * c;
    } else if i == 2 {
        assert(ex == -2 * w * c && ey == -2 * w * s) by (nonlinear_arith)
            requires ex == (c * (-w) - s * l) - (c * w - s * l), ey == (s * (-w) + c * l) - (s * w + c * l);
        assert(ex * ex + ey * ey == 4 * w * w * (c * c + s * s)) by (nonlinear_arith)
            requires ex == -2 * w * c, ey == -2 * w * s;
    } else {
        assert(ex == 2 * l * s && ey == -2 * l * c) by (nonlinear_arith)
            requires ex == (c * (-w) - s * (-l)) - (c * (-w) - s * l), ey == (s * (-w) + c * (-l)) - (s * (-w) + c * l);
        assert(ex * ex + ey * ey == 4 * l * l * (c * c + s * s)) by (nonlinear_arith)
            requires ex == 2 * l * s, ey == -2 * l * c;
    }
    assert(dot(ex, ey, ex, ey) == 4 * side * side * (h * h));
    assert(4 * side * side * (h * h) <= 0x8000_0000_0000_0000) by (nonlinear_arith)
        requires 0 <= side <= MAX_SIDE, 0 < h <= MAX_HYP;
}

/// Whether the circle meets the rectangle (see `rect_meets_circle`).
pub fn is_intersect(rectangle: &Rectangle, circle: &Circle) -> (r: bool)
    requires
        rectangle.wf(),
        circle.wf(),
    ensures
        r == rect_meets_circle(*rectangle, *circle),
{
    let v = rectangle.get_transformed_vertices();
    let s = rectangle.vertex_scale();
    proof {
        lemma_edge_length(*rectangle, 0);
        lemma_edge_length(*rectangle, 1);
        lemma_edge_length(*rectangle, 2);
        lemma_edge_length(*rectangle, 3);
        assert(in_scaled_range(v@[0]) && in_scaled_range(v@[1]) && in_scaled_range(v@[2]) && in_scaled_range(v@[3]));
    }
    rectangle.is_intersect_point(circle.center) || circle.meets_scaled_line(v[0], v[1], s, EPSILON)
        || circle.meets_scaled_line(v[1], v[2], s, EPSILON) || circle.meets_scaled_line(v[2], v[3], s, EPSILON)
        || circle.meets_scaled_line(v[3], v[0], s, EPSILON)
}

proof fn lemma_meets_line_grows(c1: Circle, c2: Circle, scale: int, ax: int, ay: int, bx: int, by: int, eps: int)
    requires
        c1.center == c2.center,
        0 <= c1.radius <= c2.radius,
        scale >= 0,
        eps >= 0,
        meets_line(c1, scale, ax, ay, bx, by, eps),
    ensures
        meets_line(c2, scale, ax, ay, bx, by, eps),
{
    let r1 = scale * c1.radius;
    let r2 = scale * c2.radius;
    let dr2 = dot(bx - ax, by - ay, bx - ax, by - ay);
    assert(0 <= r1 <= r2) by (nonlinear_arith)
        requires r1 == scale * c1.radius, r2 == scale * c2.radius, scale >= 0, 0 <= c1.radius <= c2.radius;
    assert(dr2 >= 0) by (nonlinear_arith)
        requires dr2 == (bx - ax) * (bx - ax) + (by - ay) * (by - ay);
    assert(r1 * r1 * dr2 <= r2 * r2 * dr2) by (nonlinear_arith)
        requires 0 <= r1 <= r2, dr2 >= 0;
}

/// A circle that grows about a fixed center keeps meeting every rectangle
/// that it met.
pub proof fn lemma_meets_grows_with_radius(r: Rectangle, c1: Circle, c2: Circle)
    requires
        r.wf(),
        c1.center == c2.center,
        0 <= c1.radius <= c2.radius,
        rect_meets_circle(r, c1),
    ensures
        rect_meets_circle(r, c2),
{
    let s = vertex_scale(r);
    let (ax, ay) = vertex(r, 0);
    let (bx, by) = vertex(r, 1);
    let (cx, cy) = vertex(r, 2);
    let (dx, dy) = vertex(r, 3);
    if meets_line(c1, s, ax, ay, bx, by, EPSILON as int) {
        lemma_meets_line_grows(c1, c2, s, ax, ay, bx, by, EPSILON as int);
    }
    if meets_line(c1, s, bx, by, cx, cy, EPSILON as int) {
        lemma_meets_line_grows(c1, c2, s, bx, by, cx, cy, EPSILON as int);
    }
    if meets_line(c1, s, cx, cy, dx, dy, EPSILON as int) {
        lemma_meets_line_grows(c1, c2, s, cx, cy, dx, dy, EPSILON as int);
    }
    if meets_line(c1, s, dx, dy, ax, ay, EPSILON as int) {
        lemma_meets_line_grows(c1, c2, s, dx, dy, ax, ay, EPSILON as int);
    }
}

/// The point lies in the rectangle, measured in the rectangle's own frame:
/// with `(u, v)` the offset of the point from the center turned back by the
/// rotation and scaled by `hyp`, `|u| ≤ hyp·width/2` and
/// `|v| ≤ hyp·length/2`.
pub open spec fn inside(r: Rectangle, p: Point) -> bool {
    let dx = p.x - r.center.x;
    let dy = p.y - r.center.y;
    let c = r.rotation.cos as int;
    let s = r.rotation.sin as int;
    let h = r.rotation.hyp as int;
    let u = c * dx + s * dy;
    let v = -s * dx + c * dy;
    2 * abs(u) <= h * r.width && 2 * abs(v) <= h * r.length
}

/// `c·(p + c·w − s·l) + s·(q + s·w + c·l) = c·p + s·q + (c² + s²)·w`
proof fn lemma_turn_back_first(c: int, s: int, w: int, l: int, p: int, q: int)
    ensures
        c * (p + c * w - s * l) + s * (q + s * w + c * l) == c * p + s * q + (c * c + s * s) * w,
{
    assert(c * (p + c * w - s * l) == c * p + (c * c) * w - (c * s) * l) by (nonlinear_arith);
    assert(s * (q + s * w + c * l) == s * q + (s * s) * w + (c * s) * l) by (nonlinear_arith);
    assert((c * c) * w + (s * s) * w == (c * c + s * s) * w) by (nonlinear_arith);
}

/// `−s·(p − c·w − s·l) + c·(q − s·w + c·l) = −s·p + c·q + (c² + s²)·l`
proof fn lemma_turn_back_second(c: int, s: int, w: int, l: int, p: int, q: int)
    ensures
        -s * (p - c * w - s * l) + c * (q - s * w + c * l) == -s * p + c * q + (c * c + s * s) * l,
{
    assert(-s * (p - c * w - s * l) == -s * p + (c * s) * w + (s * s) * l) by (nonlinear_arith);
    assert(c * (q - s * w + c * l) == c * q - (c * s) * w + (c * c) * l) by (nonlinear_arith);
    assert((s * s) * l + (c * c) * l == (c * c + s * s) * l) by (nonlinear_arith);
}

/// `(f·a)·x + (f·b)·y = f·(a·x + b·y)`
proof fn lemma_factor(f: int, a: int, b: int, x: int, y: int)
    ensures
        (f * a) * x + (f * b) * y == f * (a * x + b * y),
{
    assert((f * a) * x == f * (a * x)) by (nonlinear_arith);
    assert((f * b) * y == f * (b * y)) by (nonlinear_arith);
    assert(f * (a * x) + f * (b * y) == f * (a * x + b * y)) by (nonlinear_arith);
}

/// The projection test without tolerance accepts every point that lies in
/// the rectangle, and for a rectangle with both sides positive nothing
/// else.
pub proof fn lemma_point_test_is_inside(r: Rectangle, p: Point)
    requires
        r.wf(),
    ensures
        inside(r, p) ==> contains_point(r, p, 0),
        r.width > 0 && r.length > 0 ==> (contains_point(r, p, 0) <==> inside(r, p)),
{
    let dx = p.x - r.center.x;
    let dy = p.y - r.center.y;
    let c = r.rotation.cos as int;
    let s = r.rotation.sin as int;
    let h = r.rotation.hyp as int;
    let w = r.width as int;
    let l = r.length as int;
    let u = c * dx + s * dy;
    let v = -s * dx + c * dy;
    let k = vertex_scale(r);
    let (ax, ay) = vertex(r, 0);
    let (bx, by) = vertex(r, 1);
    let (cx, cy) = vertex(r, 2);
    let mx = k * p.x;
    let my = k * p.y;
    let tw = 2 * w;
    let tl = 2 * l;
    assert(bx - ax == tw * c && by - ay == tw * s) by (nonlinear_arith)
        requires
            ax == k * r.center.x + c * (-w) - s * (-l),
            ay == k * r.center.y + s * (-w) + c * (-l),
            bx == k * r.center.x + c * w - s * (-l),
            by == k * r.center.y + s * w + c * (-l),
            tw == 2 * w;
    assert(cx - bx == tl * (-s) && cy - by == tl * c) by (nonlinear_arith)
        requires
            bx == k * r.center.x + c * w - s * (-l),
            by == k * r.center.y + s * w + c * (-l),
            cx == k * r.center.x + c * w - s * l,
            cy == k * r.center.y + s * w + c * l,
            tl == 2 * l;
    let px = k * dx;
    let py = k * dy;
    assert(mx - ax == px + c * w - s * l) by (nonlinear_arith)
        requires mx == k * p.x, ax == k * r.center.x + c * (-w) - s * (-l), dx == p.x - r.center.x, px == k * dx;
    assert(my - ay == py + s * w + c * l) by (nonlinear_arith)
        requires my == k * p.y, ay == k * r.center.y + s * (-w) + c * (-l), dy == p.y - r.center.y, py == k * dy;
    assert(mx - bx == px - c * w - s * l) by (nonlinear_arith)
        requires mx == k * p.x, bx == k * r.center.x + c * w - s * (-l), dx == p.x - r.center.x, px == k * dx;
    assert(my - by == py - s * w + c * l) by (nonlinear_arith)
        requires my == k * p.y, by == k * r.center.y + s * w + c * (-l), dy == p.y - r.center.y, py == k * dy;
    assert(c * px + s * py == k * u) by (nonlinear_arith)
        requires px == k * dx, py == k * dy, u == c * dx + s * dy;
    assert(-s * px + c * py == k * v) by (nonlinear_arith)
        requires px == k * dx, py == k * dy, v == -s * dx + c * dy;
    let ab_am = dot(bx - ax, by - ay, mx - ax, my - ay);
    let ab_ab = dot(bx - ax, by - ay, bx - ax, by - ay);
    let bc_bm = dot(cx - bx, cy - by, mx - bx, my - by);
    let bc_bc = dot(cx - bx, cy - by, cx - bx, cy - by);
    lemma_factor(tw, c, s, px + c * w - s * l, py + s * w + c * l);
    lemma_turn_back_first(c, s, w, l, px, py);
    assert(ab_am == tw * (k * u + (h * h) * w));
    lemma_factor(tl, -s, c, px - c * w - s * l, py - s * w + c * l);
    lemma_turn_back_second(c, s, w, l, px, py);
    assert(bc_bm == tl * (k * v + (h * h) * l));
    lemma_factor(tw, c, s, tw * c, tw * s);
    lemma_factor(tl, -s, c, tl * (-s), tl * c);
    assert(c * (tw * c) + s * (tw * s) == tw * (c * c + s * s)) by (nonlinear_arith);
    assert((-s) * (tl * (-s)) + c * (tl * c) == tl * (c * c + s * s)) by (nonlinear_arith);
    assert(ab_ab == tw * (tw * (h * h)));
    assert(bc_bc == tl * (tl * (h * h)));
    let kw = 2 * w * h;
    let kl = 2 * l * h;
    assert(ab_am == kw * (2 * u + h * w)) by (nonlinear_arith)
        requires ab_am == tw * (k * u + (h * h) * w), tw == 2 * w, k == 2 * h, kw == 2 * w * h;
    assert(ab_ab == kw * (2 * h * w)) by (nonlinear_arith)
        requires ab_ab == tw * (tw * (h * h)), tw == 2 * w, kw == 2 * w * h;
    assert(bc_bm == kl * (2 * v + h * l)) by (nonlinear_arith)
        requires bc_bm == tl * (k * v + (h * h) * l), tl == 2 * l, k == 2 * h, kl == 2 * l * h;
    assert(bc_bc == kl * (2 * h * l)) by (nonlinear_arith)
        requires bc_bc == tl * (tl * (h * h)), tl == 2 * l, kl == 2 * l * h;
    assert(kw >= 0 && kl >= 0) by (nonlinear_arith)
        requires w >= 0, l >= 0, h > 0, kw == 2 * w * h, kl == 2 * l * h;
    assert((-(h * w) <= 2 * u && 2 * u <= h * w) ==> (0 <= ab_am && ab_am <= ab_ab)) by (nonlinear_arith)
        requires kw >= 0, ab_am == kw * (2 * u + h * w), ab_ab == kw * (2 * h * w);
    assert((-(h * l) <= 2 * v && 2 * v <= h * l) ==> (0 <= bc_bm && bc_bm <= bc_bc)) by (nonlinear_arith)
        requires kl >= 0, bc_bm == kl * (2 * v + h * l), bc_bc == kl * (2 * h * l);
    if w > 0 && l > 0 {
        assert(kw > 0 && kl > 0) by (nonlinear_arith)
            requires w > 0, l > 0, h > 0, kw == 2 * w * h, kl == 2 * l * h;
        assert((0 <= ab_am && ab_am <= ab_ab) ==> (-(h * w) <= 2 * u && 2 * u <= h * w)) by (nonlinear_arith)
            requires kw > 0, ab_am == kw * (2 * u + h * w), ab_ab == kw * (2 * h * w);
        assert((0 <= bc_bm && bc_bm <= bc_bc) ==> (-(h * l) <= 2 * v && 2 * v <= h * l)) by (nonlinear_arith)
            requires kl > 0, bc_bm == kl * (2 * v + h * l), bc_bc == kl * (2 * h * l);
    }
}

/// `(x − y)² = x² − 2xy + y²` and `(x + y)² = x² + 2xy + y²`.
proof fn lemma_square_of_sum(x: int, y: int)
    ensures
        (x - y) * (x - y) == x * x - 2 * (x * y) + y * y,
        (x + y) * (x + y) == x * x + 2 * (x * y) + y * y,
{
    assert((x - y) * (x - y) == x * x - 2 * (x * y) + y * y) by (nonlinear_arith);
    assert((x + y) * (x + y) == x * x + 2 * (x * y) + y * y) by (nonlinear_arith);
}

/// `(ab)(cd) = (ac)(bd)`
proof fn lemma_regroup(a: int, b: int, c: int, d: int)
    ensures
        (a * b) * (c * d) == (a * c) * (b * d),
{
    assert((a * b) * (c * d) == (a * c) * (b * d)) by (nonlinear_arith);
}

/// `(cu − sv)² + (su + cv)² = (c² + s²)(u² + v²)`
proof fn lemma_two_squares(c: int, s: int, u: int, v: int)
    ensures
        (c * u - s * v) * (c * u - s * v) + (s * u + c * v) * (s * u + c * v) == (c * c + s * s) * (u * u + v * v),
{
    lemma_square_of_sum(c * u, s * v);
    lemma_square_of_sum(s * u, c * v);
    lemma_regroup(c, u, c, u);
    lemma_regroup(s, v, s, v);
    lemma_regroup(s, u, s, u);
    lemma_regroup(c, v, c, v);
    lemma_regroup(c, u, s, v);
    lemma_regroup(s, u, c, v);
    assert((c * s) * (u * v) == (s * c) * (u * v)) by (nonlinear_arith);
    assert((c * c + s * s) * (u * u + v * v) == (c * c) * (u * u) + (c * c) * (v * v) + (s * s) * (u * u) + (s * s) * (
    v * v)) by (nonlinear_arith);
}

proof fn lemma_offset_bound(c: int, s: int, h: int, dx: int, u: int, v: int, w: int, l: int, e: int)
    requires
        c * c + s * s == h * h,
        h > 0,
        h * h * dx == c * u - s * v,
        2 * abs(u) <= h * w,
        2 * abs(v) <= h * l,
        w >= 0,
        l >= 0,
        e >= 0,
        l * l + w * w < 4 * e * e,
    ensures
        -e < dx < e,
{
    let a = c * u - s * v;
    let b = s * u + c * v;
    lemma_two_squares(c, s, u, v);
    assert(b * b >= 0) by (nonlinear_arith);
    assert(a * a <= (h * h) * (u * u + v * v));
    assert(4 * (u * u) <= (h * w) * (h * w)) by (nonlinear_arith)
        requires 2 * abs(u) <= h * w, h > 0, w >= 0;
    assert(4 * (v * v) <= (h * l) * (h * l)) by (nonlinear_arith)
        requires 2 * abs(v) <= h * l, h > 0, l >= 0;
    assert((h * w) * (h * w) + (h * l) * (h * l) == (h * h) * (w * w + l * l)) by (nonlinear_arith);
    assert((h * h) * (w * w + l * l) < (h * h) * (4 * e * e)) by (nonlinear_arith)
        requires l * l + w * w < 4 * e * e, h > 0;
    assert(u * u + v * v < (h * h) * (e * e)) by (nonlinear_arith)
        requires
            4 * (u * u) <= (h * w) * (h * w),
            4 * (v * v) <= (h * l) * (h * l),
            (h * w) * (h * w) + (h * l) * (h * l) == (h * h) * (w * w + l * l),
            (h * h) * (w * w + l * l) < (h * h) * (4 * e * e);
    assert(a * a == (h * h) * ((h * h) * (dx * dx))) by (nonlinear_arith)
        requires a == h * h * dx;
    assert((h * h) * ((h * h) * (dx * dx)) < (h * h) * ((h * h) * (e * e))) by (nonlinear_arith)
        requires
            a * a == (h * h) * ((h * h) * (dx * dx)),
            a * a <= (h * h) * (u * u + v * v),
            u * u + v * v < (h * h) * (e * e),
            h > 0;
    assert(dx * dx < e * e) by (nonlinear_arith)
        requires (h * h) * ((h * h) * (dx * dx)) < (h * h) * ((h * h) * (e * e)), h > 0;
    assert(-e < dx < e) by (nonlinear_arith)
        requires dx * dx < e * e, e >= 0;
}

/// A point in a rectangle lies nearer to its center, on either axis, than
/// any `e` that exceeds half the rectangle's diagonal.
pub proof fn lemma_inside_near_center(r: Rectangle, p: Point, e: int)
    requires
        r.wf(),
        inside(r, p),
        e >= 0,
        r.length * r.length + r.width * r.width < 4 * e * e,
    ensures
        -e < p.x - r.center.x < e,
        -e < p.y - r.center.y < e,
{
    let dx = p.x - r.center.x;
    let dy = p.y - r.center.y;
    let c = r.rotation.cos as int;
    let s = r.rotation.sin as int;
    let h = r.rotation.hyp as int;
    let u = c * dx + s * dy;
    let v = -s * dx + c * dy;
    assert(h * h * dx == c * u - s * v) by (nonlinear_arith)
        requires u == c * dx + s * dy, v == -s * dx + c * dy, c * c + s * s == h * h;
    assert(h * h * dy == s * u + c * v) by (nonlinear_arith)
        requires u == c * dx + s * dy, v == -s * dx + c * dy, c * c + s * s == h * h;
    lemma_offset_bound(c, s, h, dx, u, v, r.width as int, r.length as int, e);
    // the same bound for dy, with the roles of the two rotation entries swapped
    assert(s * s + (-c) * (-c) == h * h) by (nonlinear_arith)
        requires c * c + s * s == h * h;
    assert(h * h * dy == s * u - (-c) * v) by (nonlinear_arith)
        requires h * h * dy == s * u + c * v;
    lemma_offset_bound(s, -c, h, dy, u, v, r.width as int, r.length as int, e);
}

/// `(x·b − y·a)² ≤ (x² + y²)·(a² + b²)`
proof fn lemma_cross_bound(x: int, y: int, a: int, b: int)
    ensures
        (x * b - y * a) * (x * b - y * a) <= (x * x + y * y) * (a * a + b * b),
{
    lemma_two_squares(b, a, x, y);
    assert((b * x - a * y) * (b * x - a * y) == (x * b - y * a) * (x * b - y * a)) by (nonlinear_arith);
    assert((a * x + b * y) * (a * x + b * y) >= 0) by (nonlinear_arith);
    assert((b * b + a * a) * (x * x + y * y) == (x * x + y * y) * (a * a + b * b)) by (nonlinear_arith);
}

/// The circle meets the line through `(ax, ay)` along `(ex, ey)` (all at
/// scale `k`) when some point `q` within the circle lies on the other side
/// of that line from the circle's center, or on it.
proof fn lemma_line_within_reach(c: Circle, k: int, ax: int, ay: int, ex: int, ey: int, qx: int, qy: int)
    requires
        k >= 0,
        c.radius >= 0,
        ((ax - k * c.center.x) * ey - (ay - k * c.center.y) * ex) * ((ax - k * qx) * ey - (ay - k * qy) * ex) <= 0,
        (qx - c.center.x) * (qx - c.center.x) + (qy - c.center.y) * (qy - c.center.y) <= c.radius * c.radius,
    ensures
        meets_line(c, k, ax, ay, ax + ex, ay + ey, 0),
{
    let tax = ax - k * c.center.x;
    let tay = ay - k * c.center.y;
    let st = tax * ey - tay * ex;
    let sq = (ax - k * qx) * ey - (ay - k * qy) * ex;
    let zx = qx - c.center.x;
    let zy = qy - c.center.y;
    let rad = c.radius as int;
    let dr2 = ex * ex + ey * ey;
    let tbx = ax + ex - k * c.center.x;
    let tby = ay + ey - k * c.center.y;
    assert(tax * tby - tbx * tay == st) by (nonlinear_arith)
        requires st == tax * ey - tay * ex, tbx == tax + ex, tby == tay + ey;
    assert(cross(tax, tay, tbx, tby) == st);
    assert(dr2 >= 0) by (nonlinear_arith)
        requires dr2 == ex * ex + ey * ey;
    assert(st - sq == k * (zx * ey - zy * ex)) by (nonlinear_arith)
        requires
            st == (ax - k * c.center.x) * ey - (ay - k * c.center.y) * ex,
            sq == (ax - k * qx) * ey - (ay - k * qy) * ex,
            zx == qx - c.center.x,
            zy == qy - c.center.y;
    assert(st * st <= (st - sq) * (st - sq)) by (nonlinear_arith)
        requires st * sq <= 0;
    lemma_cross_bound(zx, zy, ex, ey);
    let cr = zx * ey - zy * ex;
    assert(cr * cr <= (rad * rad) * dr2) by (nonlinear_arith)
        requires cr * cr <= (zx * zx + zy * zy) * dr2, zx * zx + zy * zy <= rad * rad, dr2 >= 0;
    assert((st - sq) * (st - sq) == (k * k) * (cr * cr)) by (nonlinear_arith)
        requires st - sq == k * cr;
    assert((k * k) * (cr * cr) <= (k * rad) * (k * rad) * dr2) by (nonlinear_arith)
        requires cr * cr <= (rad * rad) * dr2;
    assert(dot(ex, ey, ex, ey) == dr2);
}

/// If `α·σ = β·π` for two points and the `π` of the two differ in sign,
/// so do their `σ`.
proof fn lemma_same_sign(alpha: int, beta: int, st: int, sq: int, pt: int, pq: int)
    requires
        alpha > 0,
        alpha * st == beta * pt,
        alpha * sq == beta * pq,
        pt * pq <= 0,
    ensures
        st * sq <= 0,
{
    assert((alpha * st) * (alpha * sq) == (beta * beta) * (pt * pq)) by (nonlinear_arith)
        requires alpha * st == beta * pt, alpha * sq == beta * pq;
    assert((beta * beta) * (pt * pq) <= 0) by (nonlinear_arith)
        requires pt * pq <= 0;
    assert((alpha * alpha) * (st * sq) <= 0) by (nonlinear_arith)
        requires (alpha * st) * (alpha * sq) <= 0;
    assert(st * sq <= 0) by (nonlinear_arith)
        requires (alpha * alpha) * (st * sq) <= 0, alpha > 0;
}

/// `a·(b·z) = b·(a·z)`
proof fn lemma_swap_factors(a: int, b: int, z: int)
    ensures
        a * (b * z) == b * (a * z),
        a * (-(b * z)) == b * (-(a * z)),
{
    assert(a * (b * z) == b * (a * z)) by (nonlinear_arith);
    assert(a * (-(b * z)) == b * (-(a * z))) by (nonlinear_arith);
}

proof fn lemma_edge_ab(c: int, s: int, tw: int, tl: int, x: int, y: int)
    ensures
        x * (tw * s) - y * (tw * c) == tw * (s * x - c * y),
        (tl * (-s)) * (-x - tw * c) + (tl * c) * (-y - tw * s) == tl * (s * x - c * y),
{
    assert(x * (tw * s) - y * (tw * c) == tw * (s * x - c * y)) by (nonlinear_arith);
    assert((tl * (-s)) * (-x - tw * c) == tl * (s * x) + tl * (s * (tw * c))) by (nonlinear_arith);
    assert((tl * c) * (-y - tw * s) == -(tl * (c * y)) - tl * (c * (tw * s))) by (nonlinear_arith);
    assert(s * (tw * c) == c * (tw * s)) by (nonlinear_arith);
    assert(tl * (s * x) - tl * (c * y) == tl * (s * x - c * y)) by (nonlinear_arith);
}

proof fn lemma_edge_bc(c: int, s: int, tw: int, tl: int, x: int, y: int)
    ensures
        x * (tl * c) - y * (tl * (-s)) == tl * (c * x + s * y),
        (tw * c) * (tw * c) + (tw * s) * (tw * s) - ((tw * c) * (-x + tw * c) + (tw * s) * (-y + tw * s)) == tw * (c * x
            + s * y),
{
    assert(x * (tl * c) - y * (tl * (-s)) == tl * (c * x + s * y)) by (nonlinear_arith);
    assert((tw * c) * (-x + tw * c) == -(tw * (c * x)) + (tw * c) * (tw * c)) by (nonlinear_arith);
    assert((tw * s) * (-y + tw * s) == -(tw * (s * y)) + (tw * s) * (tw * s)) by (nonlinear_arith);
    assert(tw * (c * x) + tw * (s * y) == tw * (c * x + s * y)) by (nonlinear_arith);
}

proof fn lemma_edge_cd(c: int, s: int, tw: int, tl: int, x: int, y: int)
    ensures
        x * (-(tw * s)) - y * (-(tw * c)) == tw * (c * y - s * x),
        (tl * (-s)) * (tl * (-s)) + (tl * c) * (tl * c) - ((tl * (-s)) * (-x + tl * (-s)) + (tl * c) * (-y + tl * c))
            == tl * (c * y - s * x),
{
    assert(x * (-(tw * s)) - y * (-(tw * c)) == tw * (c * y - s * x)) by (nonlinear_arith);
    assert((tl * (-s)) * (-x + tl * (-s)) == tl * (s * x) + (tl * (-s)) * (tl * (-s))) by (nonlinear_arith);
    assert((tl * c) * (-y + tl * c) == -(tl * (c * y)) + (tl * c) * (tl * c)) by (nonlinear_arith);
    assert(tl * (c * y) - tl * (s * x) == tl * (c * y - s * x)) by (nonlinear_arith);
}

proof fn lemma_edge_da(c: int, s: int, tw: int, tl: int, x: int, y: int)
    ensures
        x * (-(tl * c)) - y * (tl * s) == -(tl * (c * x + s * y)),
        (tw * c) * (-x - tl * s) + (tw * s) * (-y + tl * c) == -(tw * (c * x + s * y)),
{
    assert(x * (-(tl * c)) - y * (tl * s) == -(tl * (c * x + s * y))) by (nonlinear_arith);
    assert((tw * c) * (-x - tl * s) == -(tw * (c * x)) - (tw * c) * (tl * s)) by (nonlinear_arith);
    assert((tw * s) * (-y + tl * c) == -(tw * (s * y)) + (tw * s) * (tl * c)) by (nonlinear_arith);
    assert((tw * c) * (tl * s) == (tw * s) * (tl * c)) by (nonlinear_arith);
    assert(tw * (c * x) + tw * (s * y) == tw * (c * x + s * y)) by (nonlinear_arith);
}

/// A circle that reaches a point of the rectangle passes the circle test:
/// its center lies in the rectangle, or one of the edge lines lies within
/// the radius of its center.
pub proof fn lemma_touching_circle_meets(r: Rectangle, circle: Circle, q: Point)
    requires
        r.wf(),
        circle.radius >= 0,
        inside(r, q),
        (q.x - circle.center.x) * (q.x - circle.center.x) + (q.y - circle.center.y) * (q.y - circle.center.y)
            <= circle.radius * circle.radius,
    ensures
        rect_meets_circle(r, circle),
{
    let t = circle.center;
    lemma_point_test_is_inside(r, q);
    if contains_point(r, t, 0) {
        return;
    }
    let c = r.rotation.cos as int;
    let s = r.rotation.sin as int;
    let w = r.width as int;
    let l = r.length as int;
    let k = vertex_scale(r);
    let tw = 2 * w;
    let tl = 2 * l;
    let (ax, ay) = vertex(r, 0);
    let (bx, by) = vertex(r, 1);
    let (cx, cy) = vertex(r, 2);
    let (dx, dy) = vertex(r, 3);
    assert(bx - ax == tw * c && by - ay == tw * s) by (nonlinear_arith)
        requires
            ax == k * r.center.x + c * (-w) - s * (-l),
            ay == k * r.center.y + s * (-w) + c * (-l),
            bx == k * r.center.x + c * w - s * (-l),
            by == k * r.center.y + s * w + c * (-l),
            tw == 2 * w;
    assert(cx - bx == tl * (-s) && cy - by == tl * c) by (nonlinear_arith)
        requires
            bx == k * r.center.x + c * w - s * (-l),
            by == k * r.center.y + s * w + c * (-l),
            cx == k * r.center.x + c * w - s * l,
            cy == k * r.center.y + s * w + c * l,
            tl == 2 * l;
    assert(dx - cx == -(tw * c) && dy - cy == -(tw * s)) by (nonlinear_arith)
        requires
            cx == k * r.center.x + c * w - s * l,
            cy == k * r.center.y + s * w + c * l,
            dx == k * r.center.x + c * (-w) - s * l,
            dy == k * r.center.y + s * (-w) + c * l,
            tw == 2 * w;
    assert(ax - dx == tl * s && ay - dy == -(tl * c)) by (nonlinear_arith)
        requires
            ax == k * r.center.x + c * (-w) - s * (-l),
            ay == k * r.center.y + s * (-w) + c * (-l),
            dx == k * r.center.x + c * (-w) - s * l,
            dy == k * r.center.y + s * (-w) + c * l,
            tl == 2 * l;
    assert(tw >= 0 && tl >= 0 && k >= 0);
    let mtx = k * t.x;
    let mty = k * t.y;
    let mqx = k * q.x;
    let mqy = k * q.y;
    let ab_ab = dot(bx - ax, by - ay, bx - ax, by - ay);
    let bc_bc = dot(cx - bx, cy - by, cx - bx, cy - by);
    let ab_t = dot(bx - ax, by - ay, mtx - ax, mty - ay);
    let ab_q = dot(bx - ax, by - ay, mqx - ax, mqy - ay);
    let bc_t = dot(cx - bx, cy - by, mtx - bx, mty - by);
    let bc_q = dot(cx - bx, cy - by, mqx - bx, mqy - by);
    assert(0 <= ab_q <= ab_ab && 0 <= bc_q <= bc_bc);
    if bc_t < 0 {
        // beyond the edge from a to b
        lemma_edge_ab(c, s, tw, tl, ax - mtx, ay - mty);
        lemma_edge_ab(c, s, tw, tl, ax - mqx, ay - mqy);
        assert(bc_t == tl * (s * (ax - mtx) - c * (ay - mty)));
        assert(bc_q == tl * (s * (ax - mqx) - c * (ay - mqy)));
        assert(tl > 0) by (nonlinear_arith)
            requires bc_t == tl * (s * (ax - mtx) - c * (ay - mty)), bc_t < 0, tl >= 0;
        assert(bc_t * bc_q <= 0) by (nonlinear_arith)
            requires bc_t < 0, bc_q >= 0;
        lemma_swap_factors(tl, tw, s * (ax - mtx) - c * (ay - mty));
        lemma_swap_factors(tl, tw, s * (ax - mqx) - c * (ay - mqy));
        lemma_same_sign(
            tl,
            tw,
            (ax - mtx) * (tw * s) - (ay - mty) * (tw * c),
            (ax - mqx) * (tw * s) - (ay - mqy) * (tw * c),
            bc_t,
            bc_q,
        );
        lemma_line_within_reach(circle, k, ax, ay, tw * c, tw * s, q.x as int, q.y as int);
    } else if bc_t > bc_bc {
        // beyond the edge from c to d
        lemma_edge_cd(c, s, tw, tl, cx - mtx, cy - mty);
        lemma_edge_cd(c, s, tw, tl, cx - mqx, cy - mqy);
        let pt = bc_bc - bc_t;
        let pq = bc_bc - bc_q;
        assert(pt == tl * (c * (cy - mty) - s * (cx - mtx)));
        assert(pq == tl * (c * (cy - mqy) - s * (cx - mqx)));
        assert(tl > 0) by (nonlinear_arith)
            requires pt == tl * (c * (cy - mty) - s * (cx - mtx)), pt < 0, tl >= 0;
        assert(pt * pq <= 0) by (nonlinear_arith)
            requires pt < 0, pq >= 0;
        lemma_swap_factors(tl, tw, c * (cy - mty) - s * (cx - mtx));
        lemma_swap_factors(tl, tw, c * (cy - mqy) - s * (cx - mqx));
        lemma_same_sign(
            tl,
            tw,
            (cx - mtx) * (-(tw * s)) - (cy - mty) * (-(tw * c)),
            (cx - mqx) * (-(tw * s)) - (cy - mqy) * (-(tw * c)),
            pt,
            pq,
        );
        lemma_line_within_reach(circle, k, cx, cy, -(tw * c), -(tw * s), q.x as int, q.y as int);
    } else if ab_t < 0 {
        // beyond the edge from d to a
        lemma_edge_da(c, s, tw, tl, dx - mtx, dy - mty);
        lemma_edge_da(c, s, tw, tl, dx - mqx, dy - mqy);
        assert(ab_t == -(tw * (c * (dx - mtx) + s * (dy - mty))));
        assert(ab_q == -(tw * (c * (dx - mqx) + s * (dy - mqy))));
        assert(tw > 0) by (nonlinear_arith)
            requires ab_t == -(tw * (c * (dx - mtx) + s * (dy - mty))), ab_t < 0, tw >= 0;
        assert(ab_t * ab_q <= 0) by (nonlinear_arith)
            requires ab_t < 0, ab_q >= 0;
        lemma_swap_factors(tw, tl, c * (dx - mtx) + s * (dy - mty));
        lemma_swap_factors(tw, tl, c * (dx - mqx) + s * (dy - mqy));
        lemma_same_sign(
            tw,
            tl,
            (dx - mtx) * (-(tl * c)) - (dy - mty) * (tl * s),
            (dx - mqx) * (-(tl * c)) - (dy - mqy) * (tl * s),
            ab_t,
            ab_q,
        );
        lemma_line_within_reach(circle, k, dx, dy, tl * s, -(tl * c), q.x as int, q.y as int);
    } else {
        // beyond the edge from b to c
        assert(ab_t > ab_ab);
        lemma_edge_bc(c, s, tw, tl, bx - mtx, by - mty);
        lemma_edge_bc(c, s, tw, tl, bx - mqx, by - mqy);
        let pt = ab_ab - ab_t;
        let pq = ab_ab - ab_q;
        assert(pt == tw * (c * (bx - mtx) + s * (by - mty)));
        assert(pq == tw * (c * (bx - mqx) + s * (by - mqy)));
        assert(tw > 0) by (nonlinear_arith)
            requires pt == tw * (c * (bx - mtx) + s * (by - mty)), pt < 0, tw >= 0;
        assert(pt * pq <= 0) by (nonlinear_arith)
            requires pt < 0, pq >= 0;
        lemma_swap_factors(tw, tl, c * (bx - mtx) + s * (by - mty));
        lemma_swap_factors(tw, tl, c * (bx - mqx) + s * (by - mqy));
        lemma_same_sign(
            tw,
            tl,
            (bx - mtx) * (tl * c) - (by - mty) * (tl * (-s)),
            (bx - mqx) * (tl * c) - (by - mqy) * (tl * (-s)),
            pt,
            pq,
        );
        lemma_line_within_reach(circle, k, bx, by, tl * (-s), tl * c, q.x as int, q.y as int);
    }
}

} // verus!
