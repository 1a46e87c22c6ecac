use vstd::prelude::*;

verus! {

/// A position on the integer pixel grid, ordered by x, then by y.
#[derive(Debug, Clone, Copy, PartialEq, Eq, Structural, Default, PartialOrd, Ord, Hash)]
pub struct Point {
    pub x: i32,
    pub y: i32,
}

/// A displacement between two grid positions.
#[derive(Debug, Clone, Copy, PartialEq, Eq, Structural, Default)]
pub struct Vector {
    pub x: i64,
    pub y: i64,
}

/// The scalar 2D cross product of `(ax, ay)` and `(bx, by)`.
pub open spec fn cross_of(ax: int, ay: int, bx: int, by: int) -> int {
    ax * by - ay * bx
}

/// The signed turn at `c` when walking `p -> c -> n`.
pub open spec fn turn_of(p: Point, c: Point, n: Point) -> int {
    cross_of(c.x - p.x, c.y - p.y, n.x - c.x, n.y - c.y)
}

pub fn point(x: i32, y: i32) -> (r: Point)
    ensures
        r.x == x,
        r.y == y,
{
    Point { x, y }
}

pub fn vector(x: i64, y: i64) -> (r: Vector)
    ensures
        r.x == x,
        r.y == y,
{
    Vector { x, y }
}

impl Point {
    /// The displacement from `o` to `self`.
    pub fn offset_from(self, o: Point) -> (r: Vector)
        ensures
            r.x == self.x - o.x,
            r.y == self.y - o.y,
    {
        Vector { x: self.x as i64 - o.x as i64, y: self.y as i64 - o.y as i64 }
    }

    /// The coordinates as pixel indices; negative ones become 0.
    pub fn xy(&self) -> (r: (usize, usize))
        ensures
            r.0 == if self.x < 0 {
                0
            } else {
                self.x as int
            },
            r.1 == if self.y < 0 {
                0
            } else {
                self.y as int
            },
    {
        let x: usize = if self.x < 0 {
            0
        } else {
            self.x as usize
        };
        let y: usize = if self.y < 0 {
            0
        } else {
            self.y as usize
        };
        (x, y)
    }

    /// True when the walk `p -> c -> n` turns inward at `c` under the fixed
    /// orientation of the rings (clockwise on a y-down screen): such a
    /// vertex of an exterior ring is a reflex corner.
    pub fn is_convex(p: Point, c: Point, n: Point) -> (r: bool)
        ensures
            r == (turn_of(p, c, n) < 0),
    {
        let left = c.offset_from(p);
        let right = n.offset_from(c);
        left.cross(right) < 0
    }
}

/// Both components lie within 62 bits, so products of two such vectors fit
/// in 128 bits. Every difference of two grid points does.
pub open spec fn bounded(v: Vector) -> bool {
    -0x4000_0000_0000_0000 <= v.x <= 0x4000_0000_0000_0000 && -0x4000_0000_0000_0000 <= v.y
        <= 0x4000_0000_0000_0000
}

impl core::ops::Add<Point> for Point {
    type Output = Vector;

    /// The sum of two positions, as a displacement.
    fn add(self, o: Point) -> (r: Vector)
        ensures
            r.x == self.x + o.x,
            r.y == self.y + o.y,
    {
        Vector { x: self.x as i64 + o.x as i64, y: self.y as i64 + o.y as i64 }
    }
}

impl vstd::std_specs::ops::AddSpecImpl<Point> for Point {
    open spec fn obeys_add_spec() -> bool {
        true
    }

    open spec fn add_req(self, o: Point) -> bool {
        true
    }

    open spec fn add_spec(self, o: Point) -> Vector {
        Vector { x: (self.x + o.x) as i64, y: (self.y + o.y) as i64 }
    }
}

impl vstd::std_specs::ops::SubSpecImpl<Point> for Point {
    open spec fn obeys_sub_spec() -> bool {
        true
    }

    open spec fn sub_req(self, o: Point) -> bool {
        true
    }

    open spec fn sub_spec(self, o: Point) -> Vector {
        Vector { x: (self.x - o.x) as i64, y: (self.y - o.y) as i64 }
    }
}

impl core::ops::Sub<Point> for Point {
    type Output = Vector;

    fn sub(self, o: Point) -> (r: Vector)
        ensures
            r.x == self.x - o.x,
            r.y == self.y - o.y,
    {
        Vector { x: self.x as i64 - o.x as i64, y: self.y as i64 - o.y as i64 }
    }
}

impl Vector {
    pub fn dot(&self, o: Vector) -> (r: i128)
        requires
            bounded(*self),
            bounded(o),
        ensures
            r == self.x * o.x + self.y * o.y,
    {
        proof {
            lemma_prod_bound(self.x as int, o.x as int);
            lemma_prod_bound(self.y as int, o.y as int);
        }
        self.x as i128 * o.x as i128 + self.y as i128 * o.y as i128
    }

    pub fn cross(&self, o: Vector) -> (r: i128)
        requires
            bounded(*self),
            bounded(o),
        ensures
            r == cross_of(self.x as int, self.y as int, o.x as int, o.y as int),
    {
        proof {
            lemma_prod_bound(self.x as int, o.y as int);
            lemma_prod_bound(self.y as int, o.x as int);
        }
        self.x as i128 * o.y as i128 - self.y as i128 * o.x as i128
    }

    /// The larger of the two components.
    pub fn max_element(&self) -> (r: i64)
        ensures
            r == if self.x >= self.y {
                self.x
            } else {
                self.y
            },
    {
        if self.x >= self.y {
            self.x
        } else {
            self.y
        }
    }

    pub fn length_sq(&self) -> (r: i128)
        requires
            bounded(*self),
        ensures
            r == self.x * self.x + self.y * self.y,
            r >= 0,
    {
        proof {
            assert(self.x * self.x >= 0) by (nonlinear_arith);
            assert(self.y * self.y >= 0) by (nonlinear_arith);
        }
        self.dot(*self)
    }
}

/// Products of two 62-bit integers stay within 124 bits.
proof fn lemma_prod_bound(a: int, b: int)
    requires
        -0x4000_0000_0000_0000 <= a <= 0x4000_0000_0000_0000,
        -0x4000_0000_0000_0000 <= b <= 0x4000_0000_0000_0000,
    ensures
        -0x1000_0000_0000_0000_0000_0000_0000_0000 <= a * b <= 0x1000_0000_0000_0000_0000_0000_0000_0000,
{
    assert(-0x1000_0000_0000_0000_0000_0000_0000_0000 <= a * b <= 0x1000_0000_0000_0000_0000_0000_0000_0000) by (nonlinear_arith)
        requires
            -0x4000_0000_0000_0000 <= a <= 0x4000_0000_0000_0000,
            -0x4000_0000_0000_0000 <= b <= 0x4000_0000_0000_0000,
    ;
}

} // verus!
