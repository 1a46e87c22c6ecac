use vstd::prelude::*;

use crate::point::{turn_of, Point};
use crate::segment::{line_segment, LineSegment};

verus! {

/// A ring of vertices, closed implicitly from the last vertex back to the
/// first. Rings are oriented clockwise on a y-down screen.
#[derive(Debug, Clone, PartialEq, Eq, Default)]
pub struct Polygon {
    pub vertices: Vec<Point>,
}

/// The index after `i` on a ring of `n` vertices.
pub open spec fn next_index(i: int, n: int) -> int {
    if i + 1 == n {
        0
    } else {
        i + 1
    }
}

/// The index before `i` on a ring of `n` vertices.
pub open spec fn prev_index(i: int, n: int) -> int {
    if i == 0 {
        n - 1
    } else {
        i - 1
    }
}

/// The edges of the ring `v`: edge `i` runs from `v[i]` to the vertex after it.
pub open spec fn ring_edges(v: Seq<Point>) -> Seq<LineSegment> {
    Seq::new(
        v.len(),
        |i: int| LineSegment { start: v[i], end: v[next_index(i, v.len() as int)] },
    )
}

/// The ring turns inward at vertex `i`: a reflex corner of an exterior ring.
pub open spec fn reflex_at(v: Seq<Point>, i: int) -> bool {
    let n = v.len() as int;
    turn_of(v[prev_index(i, n)], v[i], v[next_index(i, n)]) < 0
}

/// The reflex vertices among the first `k` vertices of `v`, in ring order.
pub open spec fn concave_upto(v: Seq<Point>, k: nat) -> Seq<Point>
    decreases k,
{
    if k == 0 {
        seq![]
    } else {
        concave_upto(v, (k - 1) as nat) + if reflex_at(v, k - 1) {
            seq![v[k - 1]]
        } else {
            seq![]
        }
    }
}

/// The vertices that are not reflex among the first `k` vertices of `v`.
pub open spec fn convex_upto(v: Seq<Point>, k: nat) -> Seq<Point>
    decreases k,
{
    if k == 0 {
        seq![]
    } else {
        convex_upto(v, (k - 1) as nat) + if !reflex_at(v, k - 1) {
            seq![v[k - 1]]
        } else {
            seq![]
        }
    }
}

pub open spec fn concave_of(v: Seq<Point>) -> Seq<Point> {
    concave_upto(v, v.len())
}

pub open spec fn convex_of(v: Seq<Point>) -> Seq<Point> {
    convex_upto(v, v.len())
}

impl Polygon {
    /// A polygon has at least three vertices.
    pub open spec fn wf(&self) -> bool {
        self.vertices@.len() >= 3
    }

    pub fn new(vertices: Vec<Point>) -> (r: Self)
        ensures
            r.vertices@ == vertices@,
    {
        Polygon { vertices }
    }

    /// The edges of the ring, ending with the one that closes it.
    pub fn edges(&self) -> (r: Vec<LineSegment>)
        ensures
            r@ == ring_edges(self.vertices@),
    {
        let n = self.vertices.len();
        let mut r: Vec<LineSegment> = Vec::new();
        let mut i: usize = 0;
        while i < n
            invariant
                n == self.vertices@.len(),
                i <= n,
                r@.len() == i,
                forall|j: int| 0 <= j < i ==> r@[j] == ring_edges(self.vertices@)[j],
            decreases n - i,
        {
            let next = if i + 1 == n {
                0
            } else {
                i + 1
            };
            r.push(line_segment(self.vertices[i], self.vertices[next]));
            i += 1;
        }
        assert(r@ =~= ring_edges(self.vertices@));
        r
    }

    /// Whether the ring turns inward at vertex `i`.
    fn reflex(&self, i: usize) -> (r: bool)
        requires
            i < self.vertices@.len(),
        ensures
            r == reflex_at(self.vertices@, i as int),
    {
        let n = self.vertices.len();
        let prev = if i == 0 {
            n - 1
        } else {
            i - 1
        };
        let next = if i + 1 == n {
            0
        } else {
            i + 1
        };
        Point::is_convex(self.vertices[prev], self.vertices[i], self.vertices[next])
    }

    /// The reflex vertices of the ring, in ring order: the inner corners
    /// of an exterior boundary.
    pub fn concave_vertices(&self) -> (r: Vec<Point>)
        ensures
            r@ == concave_of(self.vertices@),
    {
        let n = self.vertices.len();
        let mut r: Vec<Point> = Vec::new();
        let mut i: usize = 0;
        while i < n
            invariant
                n == self.vertices@.len(),
                i <= n,
                r@ == concave_upto(self.vertices@, i as nat),
            decreases n - i,
        {
            if self.reflex(i) {
                r.push(self.vertices[i]);
            }
            i += 1;
            assert(r@ =~= concave_upto(self.vertices@, i as nat));
        }
        r
    }

    /// The vertices of the ring that are not reflex, in ring order: the
    /// outer corners of an obstacle.
    pub fn convex_vertices(&self) -> (r: Vec<Point>)
        ensures
            r@ == convex_of(self.vertices@),
    {
        let n = self.vertices.len();
        let mut r: Vec<Point> = Vec::new();
        let mut i: usize = 0;
        while i < n
            invariant
                n == self.vertices@.len(),
                i <= n,
                r@ == convex_upto(self.vertices@, i as nat),
            decreases n - i,
        {
            if !self.reflex(i) {
                r.push(self.vertices[i]);
            }
            i += 1;
            assert(r@ =~= convex_upto(self.vertices@, i as nat));
        }
        r
    }
}

/// A quadrilateral that turns outward at each of its four corners has no
/// reflex vertex.
pub proof fn lemma_convex_quadrilateral_has_no_concave_vertex(v: Seq<Point>)
    requires
        v.len() == 4,
        forall|i: int| 0 <= i < 4 ==> !reflex_at(v, i),
    ensures
        concave_of(v) == Seq::<Point>::empty(),
{
    reveal_with_fuel(concave_upto, 5);
    assert(!reflex_at(v, 0) && !reflex_at(v, 1) && !reflex_at(v, 2) && !reflex_at(v, 3));
    assert(concave_of(v) =~= Seq::<Point>::empty());
}

/// A ring that turns inward at exactly one vertex has exactly that vertex
/// as its only reflex vertex.
pub proof fn lemma_single_notch(v: Seq<Point>, k: int)
    requires
        v.len() >= 3,
        0 <= k < v.len(),
        reflex_at(v, k),
        forall|i: int| 0 <= i < v.len() && i != k ==> !reflex_at(v, i),
    ensures
        concave_of(v) == seq![v[k]],
{
    lemma_single_notch_upto(v, k, v.len());
}

proof fn lemma_single_notch_upto(v: Seq<Point>, k: int, m: nat)
    requires
        0 <= k < v.len(),
        m <= v.len(),
        reflex_at(v, k),
        forall|i: int| 0 <= i < v.len() && i != k ==> !reflex_at(v, i),
    ensures
        concave_upto(v, m) == if m > k {
            seq![v[k]]
        } else {
            Seq::<Point>::empty()
        },
    decreases m,
{
    if m > 0 {
        lemma_single_notch_upto(v, k, (m - 1) as nat);
        if m - 1 == k {
            assert(concave_upto(v, m) =~= seq![v[k]]);
        } else {
            assert(!reflex_at(v, m - 1));
            assert(concave_upto(v, m) =~= concave_upto(v, (m - 1) as nat));
        }
    } else {
        assert(concave_upto(v, m) =~= Seq::<Point>::empty());
    }
}

} // verus!
