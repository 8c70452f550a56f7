use vstd::prelude::*;

verus! {

/// Largest magnitude a coordinate may take. Keeping every coordinate inside
/// this range guarantees that all the determinants used by the segment
/// intersection test fit comfortably in `i128`.
pub const COORD_LIMIT: i64 = 1_000_000_000;

/// A 2-D point with exact integer coordinates.
#[derive(Clone, Copy, PartialEq, Eq, Structural, Debug)]
pub struct Vec2 {
    pub x: i64,
    pub y: i64,
}

impl Vec2 {
    /// Both coordinates lie within `[-COORD_LIMIT, COORD_LIMIT]`.
    pub open spec fn in_range(self) -> bool {
        &&& -COORD_LIMIT <= self.x <= COORD_LIMIT
        &&& -COORD_LIMIT <= self.y <= COORD_LIMIT
    }
}

/// The capability of exposing a 2-D position; the quadtree never interprets
/// its elements beyond this.
pub trait HasPosition: Sized {
    /// The position as a mathematical value.
    spec fn spec_pos(&self) -> Vec2;

    /// Returns the value's position.
    fn get_pos(&self) -> (p: Vec2)
        ensures
            p == self.spec_pos(),
    ;
}

impl HasPosition for Vec2 {
    open spec fn spec_pos(&self) -> Vec2 {
        *self
    }

    fn get_pos(&self) -> (p: Vec2) {
        Vec2 { x: self.x, y: self.y }
    }
}

/// An axis-aligned rectangle: the half-open region
/// `[pos.x, pos.x + size.x) x [pos.y, pos.y + size.y)`.
#[derive(Clone, Copy, PartialEq, Eq, Structural, Debug)]
pub struct Rect {
    pub pos: Vec2,
    pub size: Vec2,
}

impl Rect {
    /// Half-open containment: inclusive of the minimum edge, exclusive of the
    /// maximum edge, on both axes.
    pub open spec fn spec_contains(self, p: Vec2) -> bool {
        &&& self.pos.x <= p.x < self.pos.x + self.size.x
        &&& self.pos.y <= p.y < self.pos.y + self.size.y
    }

    /// A usable rectangle: non-negative extents, and both corners within the
    /// coordinate range.
    pub open spec fn wf(self) -> bool {
        &&& 0 <= self.size.x
        &&& 0 <= self.size.y
        &&& -COORD_LIMIT <= self.pos.x
        &&& -COORD_LIMIT <= self.pos.y
        &&& self.pos.x + self.size.x <= COORD_LIMIT
        &&& self.pos.y + self.size.y <= COORD_LIMIT
    }

    /// Whether `v`'s position lies in this rectangle, under the half-open rule.
    pub fn contains<T: HasPosition>(&self, v: &T) -> (r: bool)
        ensures
            r == self.spec_contains(v.spec_pos()),
    {
        let p = v.get_pos();
        let px: i128 = p.x as i128;
        let py: i128 = p.y as i128;
        px >= self.pos.x as i128 && px < self.pos.x as i128 + self.size.x as i128
            && py >= self.pos.y as i128 && py < self.pos.y as i128 + self.size.y as i128
    }

    /// The exact area, `size.x * size.y`.
    pub fn area(&self) -> (a: i128)
        ensures
            a == self.size.x * self.size.y,
    {
        proof {
            lemma_abs_mul_bound(self.size.x as int, self.size.y as int,
                0x8000_0000_0000_0000, 0x8000_0000_0000_0000);
        }
        (self.size.x as i128) * (self.size.y as i128)
    }

    /// The elements of `points` whose positions this rectangle contains, in
    /// their original order.
    pub fn points_inside<T: HasPosition + Copy>(&self, points: &Vec<T>) -> (r: Vec<T>)
        ensures
            r@ == points@.filter(|t: T| self.spec_contains(t.spec_pos())),
    {
        let mut r: Vec<T> = Vec::new();
        let mut i: usize = 0;
        proof {
            assert(points@.take(0int).filter(|t: T| self.spec_contains(t.spec_pos()))
                =~= Seq::<T>::empty());
        }
        while i < points.len()
            invariant
                i <= points.len(),
                r@ == points@.take(i as int).filter(|t: T| self.spec_contains(t.spec_pos())),
            decreases points.len() - i,
        {
            let ghost pred = |t: T| self.spec_contains(t.spec_pos());
            proof {
                assert(points@.take(i + 1int) =~= points@.take(i as int).push(points@[i as int]));
                points@.take(i as int).lemma_filter_push(points@[i as int], pred);
            }
            if self.contains(&points[i]) {
                r.push(points[i]);
            }
            i = i + 1;
        }
        proof {
            assert(points@.take(points@.len() as int) =~= points@);
        }
        r
    }
}

impl HasPosition for Rect {
    open spec fn spec_pos(&self) -> Vec2 {
        self.pos
    }

    fn get_pos(&self) -> (p: Vec2) {
        self.pos
    }
}

/// The 2-D cross product (determinant) of vectors `(ax, ay)` and `(bx, by)`.
pub open spec fn spec_cross(ax: int, ay: int, bx: int, by: int) -> int {
    ax * by - ay * bx
}

/// Whether the rational `n / d` lies in the closed interval `[0, 1]`.
/// False when `d == 0`, so a degenerate (parallel or zero-length) pair of
/// segments reports no intersection.
pub open spec fn in_unit_interval(n: int, d: int) -> bool {
    ||| d > 0 && 0 <= n <= d
    ||| d < 0 && d <= n <= 0
}

/// An exact intersection point with rational coordinates
/// `(x_num / den, y_num / den)`; `den` is always positive.
#[derive(Clone, Copy, PartialEq, Eq, Structural, Debug)]
pub struct FracPoint {
    pub x_num: i128,
    pub y_num: i128,
    pub den: i128,
}

/// A line segment from `origin` to `end`; a pure value used only as a query
/// argument, never stored.
pub struct Line {
    pub origin: Vec2,
    pub end: Vec2,
}

impl Line {
    /// Both endpoints lie within the coordinate range.
    pub open spec fn wf(self) -> bool {
        self.origin.in_range() && self.end.in_range()
    }

    /// The shared denominator of the two intersection parameters: the cross
    /// product of the two direction vectors. Zero exactly when the segments
    /// are parallel or degenerate.
    pub open spec fn spec_den(self, l2: Line) -> int {
        spec_cross(
            self.end.x - self.origin.x,
            self.end.y - self.origin.y,
            l2.end.x - l2.origin.x,
            l2.end.y - l2.origin.y,
        )
    }

    /// Numerator of the parameter `ua` along `self`, over `spec_den`.
    pub open spec fn spec_ua_num(self, l2: Line) -> int {
        spec_cross(
            l2.end.x - l2.origin.x,
            l2.end.y - l2.origin.y,
            self.origin.x - l2.origin.x,
            self.origin.y - l2.origin.y,
        )
    }

    /// Numerator of the parameter `ub` along `l2`, over `spec_den`.
    pub open spec fn spec_ub_num(self, l2: Line) -> int {
        spec_cross(
            self.end.x - self.origin.x,
            self.end.y - self.origin.y,
            self.origin.x - l2.origin.x,
            self.origin.y - l2.origin.y,
        )
    }

    /// The two segments intersect exactly when both parameters lie in
    /// `[0, 1]`. Collinear overlapping segments have a zero denominator and
    /// report no intersection: an accepted limitation of this predicate, not
    /// a full collinear-overlap test.
    pub open spec fn spec_intersects(self, l2: Line) -> bool {
        &&& in_unit_interval(self.spec_ua_num(l2), self.spec_den(l2))
        &&& in_unit_interval(self.spec_ub_num(l2), self.spec_den(l2))
    }

    /// The intersection point `(x_num, y_num, den)` as exact rationals with a
    /// positive denominator; meaningful only when `spec_intersects` holds.
    pub open spec fn spec_point(self, l2: Line) -> (int, int, int) {
        let d: int = self.spec_den(l2);
        let n: int = self.spec_ua_num(l2);
        let xr: int = self.origin.x * d + n * (self.end.x - self.origin.x);
        let yr: int = self.origin.y * d + n * (self.end.y - self.origin.y);
        if d > 0 {
            (xr, yr, d)
        } else {
            (-xr, -yr, -d)
        }
    }
}

/// The cross product of two vectors whose components are bounded by twice
/// the coordinate limit, computed exactly in `i128`.
fn cross_i128(ax: i128, ay: i128, bx: i128, by: i128) -> (c: i128)
    requires
        -2_000_000_000 <= ax <= 2_000_000_000,
        -2_000_000_000 <= ay <= 2_000_000_000,
        -2_000_000_000 <= bx <= 2_000_000_000,
        -2_000_000_000 <= by <= 2_000_000_000,
    ensures
        c == spec_cross(ax as int, ay as int, bx as int, by as int),
        -8_000_000_000_000_000_000 <= c <= 8_000_000_000_000_000_000,
{
    proof {
        lemma_abs_mul_bound(ax as int, by as int, 2_000_000_000, 2_000_000_000);
        lemma_abs_mul_bound(ay as int, bx as int, 2_000_000_000, 2_000_000_000);
    }
    ax * by - ay * bx
}

impl Rect {
    /// The edge along `x = pos.x`, from the low corner upward.
    pub open spec fn left_edge(self) -> Line {
        Line {
            origin: self.pos,
            end: Vec2 { x: self.pos.x, y: (self.pos.y + self.size.y) as i64 },
        }
    }

    /// The edge along `x = pos.x + size.x`.
    pub open spec fn right_edge(self) -> Line {
        Line {
            origin: Vec2 { x: (self.pos.x + self.size.x) as i64, y: self.pos.y },
            end: Vec2 {
                x: (self.pos.x + self.size.x) as i64,
                y: (self.pos.y + self.size.y) as i64,
            },
        }
    }

    /// The edge along `y = pos.y`.
    pub open spec fn bottom_edge(self) -> Line {
        Line {
            origin: self.pos,
            end: Vec2 { x: (self.pos.x + self.size.x) as i64, y: self.pos.y },
        }
    }

    /// The edge along `y = pos.y + size.y`.
    pub open spec fn top_edge(self) -> Line {
        Line {
            origin: Vec2 { x: self.pos.x, y: (self.pos.y + self.size.y) as i64 },
            end: Vec2 {
                x: (self.pos.x + self.size.x) as i64,
                y: (self.pos.y + self.size.y) as i64,
            },
        }
    }
}

impl Line {
    /// Builds a segment from `(x1, y1)` to `(x2, y2)`.
    pub fn new(x1: i64, y1: i64, x2: i64, y2: i64) -> (l: Line)
        ensures
            l.origin == (Vec2 { x: x1, y: y1 }),
            l.end == (Vec2 { x: x2, y: y2 }),
    {
        Line { origin: Vec2 { x: x1, y: y1 }, end: Vec2 { x: x2, y: y2 } }
    }

    /// The segment's extent along y.
    fn a(&self) -> (r: i64)
        requires
            self.wf(),
        ensures
            r == self.end.y - self.origin.y,
    {
        self.end.y - self.origin.y
    }

    /// The segment's extent along x.
    fn b(&self) -> (r: i64)
        requires
            self.wf(),
        ensures
            r == self.end.x - self.origin.x,
    {
        self.end.x - self.origin.x
    }

    /// The intersection parameter along `self` as an exact fraction
    /// `(numerator, denominator)`, computed from the determinant form.
    pub fn ua(&self, l2: &Line) -> (r: (i128, i128))
        requires
            self.wf(),
            l2.wf(),
        ensures
            r.0 == self.spec_ua_num(*l2),
            r.1 == self.spec_den(*l2),
            -8_000_000_000_000_000_000 <= r.0 <= 8_000_000_000_000_000_000,
            -8_000_000_000_000_000_000 <= r.1 <= 8_000_000_000_000_000_000,
    {
        let dqx: i128 = l2.end.x as i128 - l2.origin.x as i128;
        let dqy: i128 = l2.end.y as i128 - l2.origin.y as i128;
        let ex: i128 = self.origin.x as i128 - l2.origin.x as i128;
        let ey: i128 = self.origin.y as i128 - l2.origin.y as i128;
        let dpx: i128 = self.end.x as i128 - self.origin.x as i128;
        let dpy: i128 = self.end.y as i128 - self.origin.y as i128;
        let d1: i128 = cross_i128(dqx, dqy, ex, ey);
        let d2: i128 = cross_i128(dqx, dqy, dpx, dpy);
        proof {
            assert(-(dqx as int * dpy - dqy as int * dpx) == dpx as int * dqy - dpy as int
                * dqx) by (nonlinear_arith);
        }
        (d1, -d2)
    }

    /// The same parameter as `ua`, computed from the expanded coordinate
    /// formula; kept for cross-validation.
    pub fn ua2(&self, l2: &Line) -> (r: (i128, i128))
        requires
            self.wf(),
            l2.wf(),
        ensures
            r.0 == self.spec_ua_num(*l2),
            r.1 == self.spec_den(*l2),
    {
        let x1: i128 = self.origin.x as i128;
        let y1: i128 = self.origin.y as i128;
        let x2: i128 = self.end.x as i128;
        let y2: i128 = self.end.y as i128;
        let x3: i128 = l2.origin.x as i128;
        let y3: i128 = l2.origin.y as i128;
        let x4: i128 = l2.end.x as i128;
        let y4: i128 = l2.end.y as i128;
        let num: i128 = cross_i128(x4 - x3, y4 - y3, x1 - x3, y1 - y3);
        let den: i128 = cross_i128(x2 - x1, y2 - y1, x4 - x3, y4 - y3);
        (num, den)
    }

    /// The intersection parameter along `l2` as an exact fraction, over the
    /// same denominator as `ua`.
    fn ub(&self, l2: &Line) -> (r: (i128, i128))
        requires
            self.wf(),
            l2.wf(),
        ensures
            r.0 == self.spec_ub_num(*l2),
            r.1 == self.spec_den(*l2),
            -8_000_000_000_000_000_000 <= r.0 <= 8_000_000_000_000_000_000,
            -8_000_000_000_000_000_000 <= r.1 <= 8_000_000_000_000_000_000,
    {
        let dqx: i128 = l2.end.x as i128 - l2.origin.x as i128;
        let dqy: i128 = l2.end.y as i128 - l2.origin.y as i128;
        let ex: i128 = self.origin.x as i128 - l2.origin.x as i128;
        let ey: i128 = self.origin.y as i128 - l2.origin.y as i128;
        let dpx: i128 = self.end.x as i128 - self.origin.x as i128;
        let dpy: i128 = self.end.y as i128 - self.origin.y as i128;
        let d1: i128 = cross_i128(dpx, dpy, ex, ey);
        let d2: i128 = cross_i128(dqx, dqy, dpx, dpy);
        proof {
            assert(-(dqx as int * dpy - dqy as int * dpx) == dpx as int * dqy - dpy as int
                * dqx) by (nonlinear_arith);
        }
        (d1, -d2)
    }

    /// Intersects this segment with `l2` using the classic determinant form.
    /// Succeeds exactly when both parameters lie in `[0, 1]`, and then
    /// returns the exact rational intersection point. Parallel, degenerate
    /// and collinear-overlapping pairs report no intersection.
    pub fn lineline_intersect(&self, l2: &Line) -> (r: Result<FracPoint, &'static str>)
        requires
            self.wf(),
            l2.wf(),
        ensures
            r is Ok <==> self.spec_intersects(*l2),
            r is Ok ==> r->Ok_0.x_num == self.spec_point(*l2).0,
            r is Ok ==> r->Ok_0.y_num == self.spec_point(*l2).1,
            r is Ok ==> r->Ok_0.den == self.spec_point(*l2).2,
            r is Ok ==> r->Ok_0.den > 0,
            r is Err ==> r->Err_0@ == "No intersection."@,
    {
        let ua_pair: (i128, i128) = self.ua(l2);
        let ub_pair: (i128, i128) = self.ub(l2);
        let na: i128 = ua_pair.0;
        let d: i128 = ua_pair.1;
        let nb: i128 = ub_pair.0;
        let in_a: bool = (d > 0 && 0 <= na && na <= d) || (d < 0 && d <= na && na <= 0);
        let in_b: bool = (d > 0 && 0 <= nb && nb <= d) || (d < 0 && d <= nb && nb <= 0);
        if in_a && in_b {
            let bx: i128 = self.b() as i128;
            let ay: i128 = self.a() as i128;
            proof {
                lemma_abs_mul_bound(self.origin.x as int, d as int, 1_000_000_000,
                    8_000_000_000_000_000_000);
                lemma_abs_mul_bound(self.origin.y as int, d as int, 1_000_000_000,
                    8_000_000_000_000_000_000);
                lemma_abs_mul_bound(na as int, bx as int, 8_000_000_000_000_000_000,
                    2_000_000_000);
                lemma_abs_mul_bound(na as int, ay as int, 8_000_000_000_000_000_000,
                    2_000_000_000);
            }
            let xr: i128 = (self.origin.x as i128) * d + na * bx;
            let yr: i128 = (self.origin.y as i128) * d + na * ay;
            if d > 0 {
                Ok(FracPoint { x_num: xr, y_num: yr, den: d })
            } else {
                Ok(FracPoint { x_num: -xr, y_num: -yr, den: -d })
            }
        } else {
            Err("No intersection.")
        }
    }

    /// The segment lies strictly beyond one side of the rectangle's closed
    /// bounding box: both endpoints strictly left of it, right of it, below
    /// it, or above it.
    pub open spec fn separated_from(self, r: Rect) -> bool {
        ||| self.origin.x < r.pos.x && self.end.x < r.pos.x
        ||| self.origin.x > r.pos.x + r.size.x && self.end.x > r.pos.x + r.size.x
        ||| self.origin.y < r.pos.y && self.end.y < r.pos.y
        ||| self.origin.y > r.pos.y + r.size.y && self.end.y > r.pos.y + r.size.y
    }

    /// Both endpoints of the segment lie within the rectangle's closed
    /// bounding box (edges included).
    pub open spec fn within_closed_box(self, r: Rect) -> bool {
        &&& r.pos.x <= self.origin.x <= r.pos.x + r.size.x
        &&& r.pos.x <= self.end.x <= r.pos.x + r.size.x
        &&& r.pos.y <= self.origin.y <= r.pos.y + r.size.y
        &&& r.pos.y <= self.end.y <= r.pos.y + r.size.y
    }

    /// Whether this segment crosses the boundary of `r`: true exactly when it
    /// intersects at least one of the rectangle's four edges, tested one edge
    /// at a time and stopping at the first hit.
    pub open spec fn spec_rect_intersect(self, r: Rect) -> bool {
        ||| self.spec_intersects(r.left_edge())
        ||| self.spec_intersects(r.right_edge())
        ||| self.spec_intersects(r.bottom_edge())
        ||| self.spec_intersects(r.top_edge())
    }

    /// Tests this segment against the four boundary edges of `r`.
    pub fn linerect_intersect(&self, r: &Rect) -> (b: bool)
        requires
            self.wf(),
            r.wf(),
        ensures
            b == self.spec_rect_intersect(*r),
    {
        let x2: i64 = r.pos.x + r.size.x;
        let y2: i64 = r.pos.y + r.size.y;
        let left = Line::new(r.pos.x, r.pos.y, r.pos.x, y2);
        if self.lineline_intersect(&left).is_ok() {
            return true;
        }
        let right = Line::new(x2, r.pos.y, x2, y2);
        if self.lineline_intersect(&right).is_ok() {
            return true;
        }
        let bottom = Line::new(r.pos.x, r.pos.y, x2, r.pos.y);
        if self.lineline_intersect(&bottom).is_ok() {
            return true;
        }
        let top = Line::new(r.pos.x, y2, x2, y2);
        self.lineline_intersect(&top).is_ok()
    }
}

/// Segment intersection is symmetric: swapping the two segments gives the
/// same verdict, and on success the same intersection point.
pub proof fn lemma_lineline_intersect_symmetric(l1: Line, l2: Line)
    ensures
        l1.spec_intersects(l2) == l2.spec_intersects(l1),
        l1.spec_intersects(l2) ==> l1.spec_point(l2) == l2.spec_point(l1),
{
    assert(l2.spec_den(l1) == -l1.spec_den(l2)) by (nonlinear_arith);
    assert(l2.spec_ua_num(l1) == -l1.spec_ub_num(l2)) by (nonlinear_arith);
    assert(l2.spec_ub_num(l1) == -l1.spec_ua_num(l2)) by (nonlinear_arith);
    if l1.spec_intersects(l2) {
        let d: int = l1.spec_den(l2);
        let na: int = l1.spec_ua_num(l2);
        let nb: int = l1.spec_ub_num(l2);
        lemma_shared_intersection_point(l1.origin.x - l2.origin.x, l1.origin.y - l2.origin.y,
            l1.end.x - l1.origin.x, l1.end.y - l1.origin.y, l2.end.x - l2.origin.x,
            l2.end.y - l2.origin.y);
        lemma_sub_mul(l1.origin.x as int, l2.origin.x as int, d);
        lemma_sub_mul(l1.origin.y as int, l2.origin.y as int, d);
        assert(l1.origin.x * d + na * (l1.end.x - l1.origin.x) == l2.origin.x * d + nb * (
        l2.end.x - l2.origin.x));
        assert(l1.origin.y * d + na * (l1.end.y - l1.origin.y) == l2.origin.y * d + nb * (
        l2.end.y - l2.origin.y));
        lemma_mul_neg(l2.origin.x as int, d);
        lemma_mul_neg(l2.origin.y as int, d);
        lemma_neg_mul(nb, l2.end.x - l2.origin.x);
        lemma_neg_mul(nb, l2.end.y - l2.origin.y);
        assert(l2.origin.x * l2.spec_den(l1) + l2.spec_ua_num(l1) * (l2.end.x - l2.origin.x)
            == -(l2.origin.x * d + nb * (l2.end.x - l2.origin.x)));
        assert(l2.origin.y * l2.spec_den(l1) + l2.spec_ua_num(l1) * (l2.end.y - l2.origin.y)
            == -(l2.origin.y * d + nb * (l2.end.y - l2.origin.y)));
    }
}

/// `a * (-b) == -(a * b)`.
proof fn lemma_mul_neg(a: int, b: int)
    by (nonlinear_arith)
    ensures
        a * (-b) == -(a * b),
{
}

/// `(-a) * b == -(a * b)`.
proof fn lemma_neg_mul(a: int, b: int)
    by (nonlinear_arith)
    ensures
        (-a) * b == -(a * b),
{
}

/// Two segments cannot meet across a separating coordinate threshold: if
/// one segment's coordinates (on some axis) stay strictly beyond `m` while
/// the other's stay at or within `m`, no pair of parameters in `[0, 1]` can
/// make the two walked coordinates coincide.
proof fn lemma_separated_params_contra(
    so: int,
    se: int,
    eo: int,
    ee: int,
    na: int,
    nb: int,
    den: int,
    m: int,
)
    by (nonlinear_arith)
    requires
        in_unit_interval(na, den),
        in_unit_interval(nb, den),
        (so > m && se > m && eo <= m && ee <= m) || (so < m && se < m && eo >= m && ee >= m),
    ensures
        so * den + na * (se - so) != eo * den + nb * (ee - eo),
{
}

/// A segment that lies strictly beyond one side of a rectangle's closed
/// bounding box intersects no segment contained in that box.
pub proof fn lemma_separated_no_intersect(s: Line, e: Line, r: Rect)
    requires
        s.separated_from(r),
        e.within_closed_box(r),
    ensures
        !s.spec_intersects(e),
{
    if s.spec_intersects(e) {
        let d: int = s.spec_den(e);
        let na: int = s.spec_ua_num(e);
        let nb: int = s.spec_ub_num(e);
        lemma_shared_intersection_point(s.origin.x - e.origin.x, s.origin.y - e.origin.y,
            s.end.x - s.origin.x, s.end.y - s.origin.y, e.end.x - e.origin.x,
            e.end.y - e.origin.y);
        lemma_sub_mul(s.origin.x as int, e.origin.x as int, d);
        lemma_sub_mul(s.origin.y as int, e.origin.y as int, d);
        assert(s.origin.x * d + na * (s.end.x - s.origin.x) == e.origin.x * d + nb * (e.end.x
            - e.origin.x));
        assert(s.origin.y * d + na * (s.end.y - s.origin.y) == e.origin.y * d + nb * (e.end.y
            - e.origin.y));
        if s.origin.x < r.pos.x && s.end.x < r.pos.x {
            lemma_separated_params_contra(s.origin.x as int, s.end.x as int, e.origin.x as int,
                e.end.x as int, na, nb, d, r.pos.x as int);
        } else if s.origin.x > r.pos.x + r.size.x && s.end.x > r.pos.x + r.size.x {
            lemma_separated_params_contra(s.origin.x as int, s.end.x as int, e.origin.x as int,
                e.end.x as int, na, nb, d, r.pos.x + r.size.x);
        } else if s.origin.y < r.pos.y && s.end.y < r.pos.y {
            lemma_separated_params_contra(s.origin.y as int, s.end.y as int, e.origin.y as int,
                e.end.y as int, na, nb, d, r.pos.y as int);
        } else {
            lemma_separated_params_contra(s.origin.y as int, s.end.y as int, e.origin.y as int,
                e.end.y as int, na, nb, d, r.pos.y + r.size.y);
        }
    }
}

/// A segment that lies strictly beyond one side of a rectangle's closed
/// bounding box crosses none of the rectangle's four edges.
pub proof fn lemma_separated_no_rect_intersect(s: Line, r: Rect)
    requires
        r.wf(),
        s.separated_from(r),
    ensures
        !s.spec_rect_intersect(r),
{
    lemma_separated_no_intersect(s, r.left_edge(), r);
    lemma_separated_no_intersect(s, r.right_edge(), r);
    lemma_separated_no_intersect(s, r.bottom_edge(), r);
    lemma_separated_no_intersect(s, r.top_edge(), r);
}

/// `(a - b) * c == a * c - b * c`.
proof fn lemma_sub_mul(a: int, b: int, c: int)
    by (nonlinear_arith)
    ensures
        (a - b) * c == a * c - b * c,
{
}

/// The defining identity of the two-segment intersection point: walking the
/// first segment's direction `(u, v)` by its parameter reaches the same
/// point as walking the second segment's direction `(s, t)` by its
/// parameter, where `(e, f)` joins the second origin to the first.
#[verifier::rlimit(50)]
proof fn lemma_shared_intersection_point(e: int, f: int, u: int, v: int, s: int, t: int)
    by (nonlinear_arith)
    ensures
        e * (u * t - v * s) + (s * f - t * e) * u == (u * f - v * e) * s,
        f * (u * t - v * s) + (s * f - t * e) * v == (u * f - v * e) * t,
{
}

/// If `|a| <= ma` and `|b| <= mb` then `|a * b| <= ma * mb`.
pub proof fn lemma_abs_mul_bound(a: int, b: int, ma: int, mb: int)
    by (nonlinear_arith)
    requires
        -ma <= a <= ma,
        -mb <= b <= mb,
    ensures
        -(ma * mb) <= a * b <= ma * mb,
{
}

} // verus!
