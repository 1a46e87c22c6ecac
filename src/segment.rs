use vstd::arithmetic::div_mod::{lemma_div_is_ordered, lemma_fundamental_div_mod_converse};
use vstd::prelude::*;

use crate::point::{bounded, cross_of, point, Point, Vector};

verus! {

/// The square of the fixed-point scale of lengths: a length is given in
/// units of 1/65536 pixel, so the squared distance is scaled by 2^32.
pub const LENGTH_SCALE_SQ: u128 = 0x1_0000_0000;

/// A directed segment between two grid points, ordered by start, then by
/// end.
#[derive(Debug, Clone, Copy, PartialEq, Eq, Structural, Default, PartialOrd, Ord, Hash)]
pub struct LineSegment {
    pub start: Point,
    pub end: Point,
}

/// The implicit line `a*x + b*y + c == 0` through two points.
#[derive(Debug, Clone, Copy, PartialEq, Eq, Structural, Default)]
pub struct Line {
    pub a: i64,
    pub b: i64,
    pub c: i128,
}

/// `n / d` lies strictly between 0 and 1.
pub open spec fn strictly_inside(n: int, d: int) -> bool {
    (d > 0 && 0 < n && n < d) || (d < 0 && d < n && n < 0)
}

/// `n / d` lies in the closed interval from 0 to 1.
pub open spec fn within(n: int, d: int) -> bool {
    (d > 0 && 0 <= n && n <= d) || (d < 0 && d <= n && n <= 0)
}

/// Both values lie strictly on the same side of zero.
pub open spec fn same_side(d1: int, d2: int) -> bool {
    (d1 > 0 && d2 > 0) || (d1 < 0 && d2 < 0)
}

/// `a / b` rounded to the nearest integer, halves away from zero.
pub open spec fn round_div(a: int, b: int) -> int {
    if a >= 0 {
        (2 * a + b) / (2 * b)
    } else {
        -((-2 * a + b) / (2 * b))
    }
}

/// `v` clamped to the range from 0 to `hi`.
pub open spec fn clamp_to(v: int, hi: int) -> int {
    if v < 0 {
        0
    } else if v > hi {
        hi
    } else {
        v
    }
}

/// `r` is the fixed-point length of a segment whose squared length is `d2`:
/// the floor of `sqrt(d2) * 65536`.
pub open spec fn is_fixed_length(r: int, d2: int) -> bool {
    r * r <= d2 * LENGTH_SCALE_SQ < (r + 1) * (r + 1)
}

pub open spec fn line_of(start: Point, end: Point) -> Line {
    Line {
        a: (end.y - start.y) as i64,
        b: (start.x - end.x) as i64,
        c: (end.x * start.y - start.x * end.y) as i128,
    }
}

/// Where `p` lies relative to the line `l`: zero on it, and the sign tells
/// the side.
pub open spec fn side_of(l: Line, p: Point) -> int {
    l.a * p.x + l.b * p.y + l.c
}

pub fn line_segment(start: Point, end: Point) -> (r: LineSegment)
    ensures
        r.start == start,
        r.end == end,
{
    LineSegment { start, end }
}

pub fn line_through(start: Point, end: Point) -> (r: Line)
    ensures
        r == line_of(start, end),
        -0x1_0000_0000 <= r.a <= 0x1_0000_0000,
        -0x1_0000_0000 <= r.b <= 0x1_0000_0000,
        -0x8000_0000_0000_0000 <= r.c <= 0x8000_0000_0000_0000,
{
    proof {
        lemma_i32_prod(end.x as int, start.y as int);
        lemma_i32_prod(start.x as int, end.y as int);
    }
    Line {
        a: end.y as i64 - start.y as i64,
        b: start.x as i64 - end.x as i64,
        c: end.x as i128 * start.y as i128 - start.x as i128 * end.y as i128,
    }
}

/// Products of two 33-bit integers stay within 66 bits.
pub(crate) proof fn lemma_i33_prod(a: int, b: int)
    requires
        -0x1_0000_0000 <= a <= 0x1_0000_0000,
        -0x1_0000_0000 <= b <= 0x1_0000_0000,
    ensures
        -0x1_0000_0000_0000_0000 <= a * b <= 0x1_0000_0000_0000_0000,
{
    assert(-0x1_0000_0000_0000_0000 <= a * b <= 0x1_0000_0000_0000_0000) by (nonlinear_arith)
        requires
            -0x1_0000_0000 <= a <= 0x1_0000_0000,
            -0x1_0000_0000 <= b <= 0x1_0000_0000,
    ;
}

/// Products of two 32-bit integers stay within 62 bits.
proof fn lemma_i32_prod(a: int, b: int)
    requires
        -0x8000_0000 <= a <= 0x8000_0000,
        -0x8000_0000 <= b <= 0x8000_0000,
    ensures
        -0x4000_0000_0000_0000 <= a * b <= 0x4000_0000_0000_0000,
{
    assert(-0x4000_0000_0000_0000 <= a * b <= 0x4000_0000_0000_0000) by (nonlinear_arith)
        requires
            -0x8000_0000 <= a <= 0x8000_0000,
            -0x8000_0000 <= b <= 0x8000_0000,
    ;
}

/// The integer square root: the largest `r` with `r * r <= n`.
fn isqrt(n: u128) -> (r: u64)
    requires
        n < 0x4_0000_0000_0000_0000_0000_0000,
    ensures
        r * r <= n < (r + 1) * (r + 1),
{
    let mut lo: u64 = 0;
    let mut hi: u64 = 0x2_0000_0000_0000;
    assert(hi * hi == 0x4_0000_0000_0000_0000_0000_0000);
    while hi - lo > 1
        invariant
            lo < hi <= 0x2_0000_0000_0000,
            lo * lo <= n,
            n < hi * hi,
        decreases hi - lo,
    {
        let mid: u64 = lo + (hi - lo) / 2;
        assert(mid * mid <= 0x4_0000_0000_0000_0000_0000_0000) by (nonlinear_arith)
            requires
                mid <= 0x2_0000_0000_0000,
        ;
        let sq: u128 = mid as u128 * mid as u128;
        if sq <= n {
            lo = mid;
        } else {
            hi = mid;
        }
    }
    lo
}

/// `a / b` rounded to the nearest integer, halves away from zero.
fn div_round(a: i128, b: i128) -> (r: i128)
    requires
        b > 0,
        -0x1000_0000_0000_0000_0000_0000_0000_0000 <= a <= 0x1000_0000_0000_0000_0000_0000_0000_0000,
        b <= 0x1000_0000_0000_0000_0000_0000_0000_0000,
    ensures
        r == round_div(a as int, b as int),
{
    let m: i128 = if a >= 0 {
        a
    } else {
        -a
    };
    let q: i128 = (2 * m + b) / (2 * b);
    proof {
        lemma_div_is_ordered(0, 2 * m + b, 2 * b);
        lemma_div_is_ordered(2 * m + b, 2 * m + b + 2 * b, 2 * b);
        vstd::arithmetic::div_mod::lemma_div_plus_one(2 * m + b, 2 * b);
        vstd::arithmetic::div_mod::lemma_div_is_ordered_by_denominator(2 * m + b, 1, 2 * b);
    }
    if a >= 0 {
        q
    } else {
        -q
    }
}

/// Rounding `a / b` for `0 <= a <= k * b` stays between 0 and `k`, and
/// gives `k` exactly when `a == k * b`.
proof fn lemma_round_div_bounds(a: int, b: int, k: int)
    requires
        b > 0,
        k >= 0,
        0 <= a <= k * b,
    ensures
        0 <= round_div(a, b) <= k,
        a == k * b ==> round_div(a, b) == k,
        a == 0 ==> round_div(a, b) == 0,
{
    assert(2 * a <= 2 * k * b) by (nonlinear_arith)
        requires
            a <= k * b,
    ;
    lemma_div_is_ordered(0, 2 * a + b, 2 * b);
    lemma_div_is_ordered(2 * a + b, 2 * k * b + b, 2 * b);
    assert(2 * k * b + b == k * (2 * b) + b) by (nonlinear_arith);
    lemma_fundamental_div_mod_converse(2 * k * b + b, 2 * b, k, b);
    lemma_fundamental_div_mod_converse(b, 2 * b, 0, b);
    if a == k * b {
        assert(2 * a + b == k * (2 * b) + b) by (nonlinear_arith)
            requires
                a == k * b,
        ;
        lemma_fundamental_div_mod_converse(2 * a + b, 2 * b, k, b);
    }
}

impl LineSegment {
    pub open spec fn dx(self) -> int {
        self.end.x - self.start.x
    }

    pub open spec fn dy(self) -> int {
        self.end.y - self.start.y
    }

    pub open spec fn len_sq(self) -> int {
        self.dx() * self.dx() + self.dy() * self.dy()
    }

    /// The two segments cross properly: each one's endpoints lie strictly
    /// on opposite sides of the other's line, and the lines are not
    /// parallel. Touching at an endpoint is no crossing.
    pub open spec fn crosses_spec(self, o: LineSegment) -> bool {
        let den = cross_of(self.dx(), self.dy(), o.dx(), o.dy());
        let n1 = cross_of(o.start.x - self.start.x, o.start.y - self.start.y, o.dx(), o.dy());
        let n2 = cross_of(o.start.x - self.start.x, o.start.y - self.start.y, self.dx(), self.dy());
        den != 0 && strictly_inside(n1, den) && strictly_inside(n2, den)
    }

    /// The segments meet, endpoints included. When `o.start` lies on this
    /// segment's line, the answer is whether it lies between this
    /// segment's endpoints in x or in y.
    pub open spec fn intersects_spec(self, o: LineSegment) -> bool {
        let cx = o.start.x - self.start.x;
        let cy = o.start.y - self.start.y;
        let cmpxr = cross_of(cx, cy, self.dx(), self.dy());
        let cmpxs = cross_of(cx, cy, o.dx(), o.dy());
        let rxs = cross_of(self.dx(), self.dy(), o.dx(), o.dy());
        if cmpxr == 0 {
            ((o.start.x - self.start.x < 0) != (o.start.x - self.end.x < 0)) || ((o.start.y
                - self.start.y < 0) != (o.start.y - self.end.y < 0))
        } else {
            rxs != 0 && within(cmpxs, rxs) && within(cmpxr, rxs)
        }
    }

    /// Half-plane test: neither segment lies strictly on one side of the
    /// other's line, and the lines are not parallel.
    pub open spec fn intersects3_spec(self, o: LineSegment) -> bool {
        let l1 = line_of(self.start, self.end);
        let l2 = line_of(o.start, o.end);
        !same_side(side_of(l1, o.start), side_of(l1, o.end)) && !same_side(
            side_of(l2, self.start),
            side_of(l2, self.end),
        ) && l1.a * l2.b - l2.a * l1.b != 0
    }

    /// The point of `self` nearest to `p`, rounded to the grid: the
    /// projection parameter is clamped to the segment. A degenerate segment
    /// gives its start.
    pub open spec fn closest_point_spec(self, p: Point) -> Point {
        let l2 = self.len_sq();
        if l2 == 0 {
            self.start
        } else {
            let t = clamp_to((p.x - self.start.x) * self.dx() + (p.y - self.start.y) * self.dy(), l2);
            Point {
                x: (self.start.x + round_div(t * self.dx(), l2)) as i32,
                y: (self.start.y + round_div(t * self.dy(), l2)) as i32,
            }
        }
    }

    /// The number of pixels a raster of the segment steps through: the
    /// larger of its extents in x and in y.
    pub open spec fn diag_dist(self) -> int {
        let ax = if self.dx() < 0 {
            -self.dx()
        } else {
            self.dx()
        };
        let ay = if self.dy() < 0 {
            -self.dy()
        } else {
            self.dy()
        };
        if ax >= ay {
            ax
        } else {
            ay
        }
    }

    /// Pixel `i` of the raster of the segment: the point a fraction
    /// `i / diag_dist()` along it, rounded to the grid.
    pub open spec fn raster_point(self, i: int) -> Point {
        let n = self.diag_dist();
        Point {
            x: (self.start.x + round_div(i * self.dx(), n)) as i32,
            y: (self.start.y + round_div(i * self.dy(), n)) as i32,
        }
    }

    /// Where the segments meet, rounded to the grid: the point a fraction
    /// `na / den` along `self`, when both fractions lie in `[0, 1]` and the
    /// lines are not parallel.
    pub open spec fn intersects2_spec(self, o: LineSegment) -> Option<Point> {
        let den = o.dy() * self.dx() - o.dx() * self.dy();
        let na = o.dx() * (self.start.y - o.start.y) - o.dy() * (self.start.x - o.start.x);
        let nb = self.dx() * (o.start.y - self.start.y) - self.dy() * (o.start.x - self.start.x);
        if den == 0 || !within(na, den) || !within(nb, -den) {
            None
        } else {
            let (n, d) = if den > 0 {
                (na, den)
            } else {
                (-na, -den)
            };
            Some(
                Point {
                    x: (self.start.x + round_div(n * self.dx(), d)) as i32,
                    y: (self.start.y + round_div(n * self.dy(), d)) as i32,
                },
            )
        }
    }

    /// The pixels of the segment, from `start` up to but not including
    /// `end`, one per step of the larger extent.
    pub fn points(&self) -> (r: Vec<Point>)
        ensures
            r@.len() == self.diag_dist(),
            forall|i: int| 0 <= i < r@.len() ==> r@[i] == self.raster_point(i),
    {
        let sv = self.direction();
        let ax: i128 = if sv.x < 0 {
            -(sv.x as i128)
        } else {
            sv.x as i128
        };
        let ay: i128 = if sv.y < 0 {
            -(sv.y as i128)
        } else {
            sv.y as i128
        };
        let n: i128 = if ax >= ay {
            ax
        } else {
            ay
        };
        let mut r: Vec<Point> = Vec::new();
        let mut step: i128 = 0;
        while step < n
            invariant
                0 <= step <= n,
                n == self.diag_dist(),
                sv.x == self.dx(),
                sv.y == self.dy(),
                -0x1_0000_0000 <= sv.x <= 0x1_0000_0000,
                -0x1_0000_0000 <= sv.y <= 0x1_0000_0000,
                n <= 0x1_0000_0000,
                r@.len() == step,
                forall|i: int| 0 <= i < step ==> r@[i] == self.raster_point(i),
            decreases n - step,
        {
            proof {
                lemma_i33_prod(step as int, sv.x as int);
                lemma_i33_prod(step as int, sv.y as int);
                lemma_offset_within(step as int, sv.x as int, n as int);
                lemma_offset_within(step as int, sv.y as int, n as int);
            }
            let ox = div_round(step * sv.x as i128, n);
            let oy = div_round(step * sv.y as i128, n);
            r.push(point((self.start.x as i128 + ox) as i32, (self.start.y as i128 + oy) as i32));
            step += 1;
        }
        r
    }

    pub fn intersects2(&self, other: &LineSegment) -> (r: Option<Point>)
        ensures
            r == self.intersects2_spec(*other),
    {
        let ov = other.direction();
        let sv = self.direction();
        proof {
            lemma_i33_prod(ov.y as int, sv.x as int);
            lemma_i33_prod(ov.x as int, sv.y as int);
        }
        let den: i128 = ov.y as i128 * sv.x as i128 - ov.x as i128 * sv.y as i128;
        if den == 0 {
            return None;
        }
        let ey = self.start.y as i128 - other.start.y as i128;
        let ex = self.start.x as i128 - other.start.x as i128;
        proof {
            lemma_i33_prod(ov.x as int, ey as int);
            lemma_i33_prod(ov.y as int, ex as int);
            lemma_i33_prod(sv.x as int, -ey as int);
            lemma_i33_prod(sv.y as int, -ex as int);
        }
        let na: i128 = ov.x as i128 * ey - ov.y as i128 * ex;
        let nb: i128 = sv.x as i128 * (-ey) - sv.y as i128 * (-ex);
        let ok_a = if den > 0 {
            0 <= na && na <= den
        } else {
            den <= na && na <= 0
        };
        let ok_b = if -den > 0 {
            0 <= nb && nb <= -den
        } else {
            -den <= nb && nb <= 0
        };
        if !ok_a || !ok_b {
            return None;
        }
        let (n, d): (i128, i128) = if den > 0 {
            (na, den)
        } else {
            (-na, -den)
        };
        proof {
            lemma_offset_within(n as int, sv.x as int, d as int);
            lemma_offset_within(n as int, sv.y as int, d as int);
            assert(-0x2_0000_0000_0000_0000 * 0x1_0000_0000 <= n * sv.x <= 0x2_0000_0000_0000_0000 * 0x1_0000_0000) by (nonlinear_arith)
                requires
                    0 <= n <= 0x2_0000_0000_0000_0000,
                    -0x1_0000_0000 <= sv.x <= 0x1_0000_0000,
            ;
            assert(-0x2_0000_0000_0000_0000 * 0x1_0000_0000 <= n * sv.y <= 0x2_0000_0000_0000_0000 * 0x1_0000_0000) by (nonlinear_arith)
                requires
                    0 <= n <= 0x2_0000_0000_0000_0000,
                    -0x1_0000_0000 <= sv.y <= 0x1_0000_0000,
            ;
        }
        let ox = div_round(n * sv.x as i128, d);
        let oy = div_round(n * sv.y as i128, d);
        Some(point((self.start.x as i128 + ox) as i32, (self.start.y as i128 + oy) as i32))
    }

    pub fn direction(&self) -> (r: Vector)
        ensures
            r.x == self.dx(),
            r.y == self.dy(),
            bounded(r),
    {
        self.end.offset_from(self.start)
    }

    pub fn crosses(&self, other: &LineSegment) -> (r: bool)
        ensures
            r == self.crosses_spec(*other),
    {
        let sv = self.direction();
        let ov = other.direction();
        let den = sv.cross(ov);
        if den == 0 {
            return false;
        }
        let c = other.start.offset_from(self.start);
        let n1 = c.cross(ov);
        let n2 = c.cross(sv);
        if n1 == 0 || n2 == 0 {
            return false;
        }
        if den > 0 {
            0 < n1 && n1 < den && 0 < n2 && n2 < den
        } else {
            den < n1 && n1 < 0 && den < n2 && n2 < 0
        }
    }

    pub fn intersects(&self, other: &LineSegment) -> (r: bool)
        ensures
            r == self.intersects_spec(*other),
    {
        let c = other.start.offset_from(self.start);
        let r = self.direction();
        let s = other.direction();
        let cmpxr = c.cross(r);
        let cmpxs = c.cross(s);
        let rxs = r.cross(s);
        if cmpxr == 0 {
            return ((other.start.x as i64 - self.start.x as i64) < 0) != ((other.start.x as i64
                - self.end.x as i64) < 0) || ((other.start.y as i64 - self.start.y as i64) < 0)
                != ((other.start.y as i64 - self.end.y as i64) < 0);
        }
        if rxs == 0 {
            return false;
        }
        if rxs > 0 {
            0 <= cmpxs && cmpxs <= rxs && 0 <= cmpxr && cmpxr <= rxs
        } else {
            rxs <= cmpxs && cmpxs <= 0 && rxs <= cmpxr && cmpxr <= 0
        }
    }

    pub fn intersects3(&self, ls: &LineSegment) -> (r: bool)
        ensures
            r == self.intersects3_spec(*ls),
    {
        let first = line_through(self.start, self.end);
        let d1 = side(&first, ls.start);
        let d2 = side(&first, ls.end);
        if (d1 > 0 && d2 > 0) || (d1 < 0 && d2 < 0) {
            return false;
        }
        let other = line_through(ls.start, ls.end);
        let d1 = side(&other, self.start);
        let d2 = side(&other, self.end);
        if (d1 > 0 && d2 > 0) || (d1 < 0 && d2 < 0) {
            return false;
        }
        proof {
            lemma_i33_prod(first.a as int, other.b as int);
            lemma_i33_prod(other.a as int, first.b as int);
        }
        first.a as i128 * other.b as i128 - other.a as i128 * first.b as i128 != 0
    }

    pub fn closest_point(&self, p: Point) -> (r: Point)
        ensures
            r == self.closest_point_spec(p),
    {
        let sv = self.direction();
        let l2 = sv.length_sq();
        proof {
            lemma_i33_prod(sv.x as int, sv.x as int);
            lemma_i33_prod(sv.y as int, sv.y as int);
        }
        if l2 == 0 {
            return self.start;
        }
        let ps = p.offset_from(self.start);
        let d = ps.dot(sv);
        proof {
            lemma_i33_prod(ps.x as int, sv.x as int);
            lemma_i33_prod(ps.y as int, sv.y as int);
        }
        let t: i128 = if d < 0 {
            0
        } else if d > l2 {
            l2
        } else {
            d
        };
        proof {
            assert(-0x2_0000_0000_0000_0000 * 0x1_0000_0000 <= t * sv.x <= 0x2_0000_0000_0000_0000 * 0x1_0000_0000) by (nonlinear_arith)
                requires
                    0 <= t <= 0x2_0000_0000_0000_0000,
                    -0x1_0000_0000 <= sv.x <= 0x1_0000_0000,
            ;
            assert(-0x2_0000_0000_0000_0000 * 0x1_0000_0000 <= t * sv.y <= 0x2_0000_0000_0000_0000 * 0x1_0000_0000) by (nonlinear_arith)
                requires
                    0 <= t <= 0x2_0000_0000_0000_0000,
                    -0x1_0000_0000 <= sv.y <= 0x1_0000_0000,
            ;
        }
        let ox = div_round(t * sv.x as i128, l2);
        let oy = div_round(t * sv.y as i128, l2);
        proof {
            lemma_offset_within(t as int, sv.x as int, l2 as int);
            lemma_offset_within(t as int, sv.y as int, l2 as int);
        }
        point((self.start.x as i128 + ox) as i32, (self.start.y as i128 + oy) as i32)
    }

    /// Euclidean length in units of 1/65536 pixel, rounded down.
    pub fn length(&self) -> (r: u64)
        ensures
            is_fixed_length(r as int, self.len_sq()),
    {
        self.direction().length()
    }
}

impl Vector {
    /// Euclidean length in units of 1/65536 pixel, rounded down. The
    /// components are those of a difference of two grid points.
    pub fn length(&self) -> (r: u64)
        requires
            -0x1_0000_0000 <= self.x <= 0x1_0000_0000,
            -0x1_0000_0000 <= self.y <= 0x1_0000_0000,
        ensures
            is_fixed_length(r as int, self.x * self.x + self.y * self.y),
    {
        let l2 = self.length_sq();
        proof {
            lemma_i33_prod(self.x as int, self.x as int);
            lemma_i33_prod(self.y as int, self.y as int);
        }
        isqrt(l2 as u128 * LENGTH_SCALE_SQ)
    }
}

/// Rounding `t * v / l2` with `0 <= t <= l2` moves no further than `v`.
proof fn lemma_offset_within(t: int, v: int, l2: int)
    requires
        0 <= t <= l2,
        l2 > 0,
    ensures
        v >= 0 ==> 0 <= round_div(t * v, l2) <= v,
        v < 0 ==> v <= round_div(t * v, l2) <= 0,
{
    if v >= 0 {
        assert(0 <= t * v <= v * l2) by (nonlinear_arith)
            requires
                0 <= t <= l2,
                v >= 0,
        ;
        lemma_round_div_bounds(t * v, l2, v);
    } else {
        assert(0 <= -(t * v) <= (-v) * l2) by (nonlinear_arith)
            requires
                0 <= t <= l2,
                v < 0,
        ;
        let a = -(t * v);
        lemma_round_div_bounds(a, l2, -v);
        if t * v < 0 {
            assert(-2 * (t * v) + l2 == 2 * a + l2) by (nonlinear_arith)
                requires
                    a == -(t * v),
            ;
            assert(round_div(t * v, l2) == -((2 * a + l2) / (2 * l2)));
        }
    }
}

/// Rounding `l2 * v / l2` gives `v` back exactly.
proof fn lemma_round_div_exact(v: int, l2: int)
    requires
        l2 > 0,
    ensures
        round_div(l2 * v, l2) == v,
{
    if v >= 0 {
        assert(0 <= l2 * v && l2 * v == v * l2) by (nonlinear_arith)
            requires
                l2 > 0,
                v >= 0,
        ;
        lemma_round_div_bounds(l2 * v, l2, v);
    } else {
        let a = -(l2 * v);
        assert(a >= 0 && a == (-v) * l2 && -2 * (l2 * v) + l2 == 2 * a + l2) by (nonlinear_arith)
            requires
                l2 > 0,
                v < 0,
                a == -(l2 * v),
        ;
        lemma_round_div_bounds(a, l2, -v);
    }
}

/// Two segments that share an endpoint never cross: touching is not
/// crossing.
pub proof fn lemma_touching_is_not_crossing(a: LineSegment, b: LineSegment)
    requires
        a.start == b.start || a.start == b.end || a.end == b.start || a.end == b.end,
    ensures
        !a.crosses_spec(b),
{
    let (sx, sy, ox, oy) = (a.dx(), a.dy(), b.dx(), b.dy());
    let (cx, cy) = (b.start.x - a.start.x, b.start.y - a.start.y);
    let den = cross_of(sx, sy, ox, oy);
    let n1 = cross_of(cx, cy, ox, oy);
    let n2 = cross_of(cx, cy, sx, sy);
    if a.start == b.start {
        assert(n1 == 0) by (nonlinear_arith)
            requires
                cx == 0,
                cy == 0,
                n1 == cross_of(cx, cy, ox, oy),
        ;
    } else if a.end == b.start {
        assert(n1 == den) by (nonlinear_arith)
            requires
                cx == sx,
                cy == sy,
                n1 == cross_of(cx, cy, ox, oy),
                den == cross_of(sx, sy, ox, oy),
        ;
    } else if a.start == b.end {
        assert(n2 == den) by (nonlinear_arith)
            requires
                cx == -ox,
                cy == -oy,
                n2 == cross_of(cx, cy, sx, sy),
                den == cross_of(sx, sy, ox, oy),
        ;
    } else {
        assert(n1 == den) by (nonlinear_arith)
            requires
                cx == sx - ox,
                cy == sy - oy,
                n1 == cross_of(cx, cy, ox, oy),
                den == cross_of(sx, sy, ox, oy),
        ;
    }
}

/// The half-plane test and the strict crossing test agree on segments
/// where no endpoint lies on the other segment's line.
pub proof fn lemma_half_plane_test_agrees(a: LineSegment, b: LineSegment)
    requires
        side_of(line_of(a.start, a.end), b.start) != 0,
        side_of(line_of(a.start, a.end), b.end) != 0,
        side_of(line_of(b.start, b.end), a.start) != 0,
        side_of(line_of(b.start, b.end), a.end) != 0,
    ensures
        a.intersects3_spec(b) == a.crosses_spec(b),
{
    let (sx, sy, ox, oy) = (a.dx(), a.dy(), b.dx(), b.dy());
    let (cx, cy) = (b.start.x - a.start.x, b.start.y - a.start.y);
    let den = cross_of(sx, sy, ox, oy);
    let n1 = cross_of(cx, cy, ox, oy);
    let n2 = cross_of(cx, cy, sx, sy);
    let l1 = line_of(a.start, a.end);
    let l2 = line_of(b.start, b.end);
    let (asx, asy, aex, aey) = (a.start.x as int, a.start.y as int, a.end.x as int, a.end.y as int);
    let (bsx, bsy, bex, bey) = (b.start.x as int, b.start.y as int, b.end.x as int, b.end.y as int);
    lemma_i32_prod(aex, asy);
    lemma_i32_prod(asx, aey);
    lemma_i32_prod(bex, bsy);
    lemma_i32_prod(bsx, bey);
    assert(l1.a == aey - asy && l1.b == asx - aex && l1.c == aex * asy - asx * aey);
    assert(l2.a == bey - bsy && l2.b == bsx - bex && l2.c == bex * bsy - bsx * bey);
    assert((aey - asy) * bsx + (asx - aex) * bsy + (aex * asy - asx * aey) == cross_of(
        bsx - asx,
        bsy - asy,
        aex - asx,
        aey - asy,
    )) by (nonlinear_arith);
    let (la, lb, ma, mb) = (aey - asy, asx - aex, bey - bsy, bsx - bex);
    assert(la * bex + lb * bey - (la * bsx + lb * bsy) == la * (bex - bsx) + lb * (bey - bsy))
        by (nonlinear_arith);
    assert(la * (bex - bsx) + lb * (bey - bsy) == -cross_of(-lb, la, bex - bsx, bey - bsy))
        by (nonlinear_arith);
    assert(ma * aex + mb * aey - (ma * asx + mb * asy) == ma * (aex - asx) + mb * (aey - asy))
        by (nonlinear_arith);
    assert(ma * (aex - asx) + mb * (aey - asy) == -cross_of(-mb, ma, aex - asx, aey - asy))
        by (nonlinear_arith);
    assert(cross_of(-mb, ma, aex - asx, aey - asy) == -cross_of(aex - asx, aey - asy, -mb, ma))
        by (nonlinear_arith);
    assert((bey - bsy) * asx + (bsx - bex) * asy + (bex * bsy - bsx * bey) == -cross_of(
        bsx - asx,
        bsy - asy,
        bex - bsx,
        bey - bsy,
    )) by (nonlinear_arith);
    assert((aey - asy) * (bsx - bex) - (bey - bsy) * (asx - aex) == cross_of(
        aex - asx,
        aey - asy,
        bex - bsx,
        bey - bsy,
    )) by (nonlinear_arith);
    assert(side_of(l1, b.start) == n2);
    assert(side_of(l1, b.end) == n2 - den);
    assert(side_of(l2, a.start) == -n1);
    assert(side_of(l2, a.end) == den - n1);
    assert(l1.a * l2.b - l2.a * l1.b == den);
}

/// Segments on parallel lines never cross.
pub proof fn lemma_parallel_never_crosses(a: LineSegment, b: LineSegment)
    requires
        cross_of(a.dx(), a.dy(), b.dx(), b.dy()) == 0,
    ensures
        !a.crosses_spec(b),
{
}

/// The point of a segment nearest to one of its endpoints is that endpoint.
pub proof fn lemma_closest_point_of_endpoint(s: LineSegment)
    ensures
        s.closest_point_spec(s.start) == s.start,
        s.closest_point_spec(s.end) == s.end,
{
    let l2 = s.len_sq();
    assert(l2 >= 0) by (nonlinear_arith)
        requires
            l2 == s.dx() * s.dx() + s.dy() * s.dy(),
    ;
    if l2 != 0 {
        lemma_round_div_bounds(0, l2, 0);
        assert(0 * s.dx() == 0 && 0 * s.dy() == 0);
        lemma_round_div_exact(s.dx(), l2);
        lemma_round_div_exact(s.dy(), l2);
    } else {
        assert(s.dx() == 0 && s.dy() == 0) by (nonlinear_arith)
            requires
                s.dx() * s.dx() + s.dy() * s.dy() == 0,
        ;
    }
}

fn side(l: &Line, p: Point) -> (r: i128)
    requires
        -0x1_0000_0000 <= l.a <= 0x1_0000_0000,
        -0x1_0000_0000 <= l.b <= 0x1_0000_0000,
        -0x8000_0000_0000_0000 <= l.c <= 0x8000_0000_0000_0000,
    ensures
        r == side_of(*l, p),
{
    proof {
        lemma_i33_prod(l.a as int, p.x as int);
        lemma_i33_prod(l.b as int, p.y as int);
    }
    l.a as i128 * p.x as i128 + l.b as i128 * p.y as i128 + l.c
}

} // verus!
