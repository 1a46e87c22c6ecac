use vstd::prelude::*;

use crate::pathfinding::{astar, is_walk, reachable, walk_between, Graph, ShortestPath};
use crate::point::{turn_of, Point};
use crate::polygon::{
    concave_of, convex_of, lemma_convex_quadrilateral_has_no_concave_vertex, next_index,
    prev_index, reflex_at, ring_edges, Polygon,
};
use crate::segment::{lemma_i33_prod, line_segment, LineSegment};

verus! {

/// A walkable region: an exterior ring minus interior rings (obstacles),
/// with the visibility graph between its corners and the temporary edges of
/// the current query.
#[derive(Debug, Clone, PartialEq, Eq, Default)]
pub struct WalkBox {
    /// Every boundary edge: the exterior ring's, then each hole's.
    pub edges: Vec<LineSegment>,
    /// The corners a path may bend around: the reflex vertices of the
    /// exterior, then the vertices of each hole that are not reflex.
    pub concave_vertices: Vec<Point>,
    /// The static visibility graph between the corners.
    pub graph_edges: Vec<LineSegment>,
    /// The edges added for the current query.
    pub temp_edges: Vec<LineSegment>,
    pub xmin: i32,
    pub xmax: i32,
    pub ymin: i32,
    pub ymax: i32,
}

pub open spec fn seg(a: Point, b: Point) -> LineSegment {
    LineSegment { start: a, end: b }
}

pub open spec fn min_of(a: int, b: int) -> int {
    if a <= b {
        a
    } else {
        b
    }
}

pub open spec fn max_of(a: int, b: int) -> int {
    if a >= b {
        a
    } else {
        b
    }
}

/// The smallest x coordinate of a non-empty sequence of points.
pub open spec fn min_x(v: Seq<Point>) -> int
    decreases v.len(),
{
    if v.len() <= 1 {
        v[0].x as int
    } else {
        min_of(min_x(v.drop_last()), v.last().x as int)
    }
}

pub open spec fn max_x(v: Seq<Point>) -> int
    decreases v.len(),
{
    if v.len() <= 1 {
        v[0].x as int
    } else {
        max_of(max_x(v.drop_last()), v.last().x as int)
    }
}

pub open spec fn min_y(v: Seq<Point>) -> int
    decreases v.len(),
{
    if v.len() <= 1 {
        v[0].y as int
    } else {
        min_of(min_y(v.drop_last()), v.last().y as int)
    }
}

pub open spec fn max_y(v: Seq<Point>) -> int
    decreases v.len(),
{
    if v.len() <= 1 {
        v[0].y as int
    } else {
        max_of(max_y(v.drop_last()), v.last().y as int)
    }
}

/// The rings of a sequence of polygons.
pub open spec fn rings_of(ps: Seq<Polygon>) -> Seq<Seq<Point>> {
    Seq::new(ps.len(), |i: int| ps[i].vertices@)
}

/// The edges of all hole rings, in order.
pub open spec fn hole_edges(holes: Seq<Seq<Point>>) -> Seq<LineSegment>
    decreases holes.len(),
{
    if holes.len() == 0 {
        seq![]
    } else {
        hole_edges(holes.drop_last()) + ring_edges(holes.last())
    }
}

/// The corners of all hole rings: their vertices that are not reflex.
pub open spec fn hole_corners(holes: Seq<Seq<Point>>) -> Seq<Point>
    decreases holes.len(),
{
    if holes.len() == 0 {
        seq![]
    } else {
        hole_corners(holes.drop_last()) + convex_of(holes.last())
    }
}

/// A candidate edge is usable: it is not degenerate and crosses no
/// boundary edge.
pub open spec fn visible(edges: Seq<LineSegment>, s: LineSegment) -> bool {
    s.start != s.end && forall|k: int| 0 <= k < edges.len() ==> !s.crosses_spec(#[trigger] edges[k])
}

/// The usable candidates, in order, each kept once.
pub open spec fn keep_visible(edges: Seq<LineSegment>, cands: Seq<LineSegment>) -> Seq<LineSegment>
    decreases cands.len(),
{
    if cands.len() == 0 {
        seq![]
    } else {
        let prev = keep_visible(edges, cands.drop_last());
        let c = cands.last();
        if visible(edges, c) && !prev.contains(c) {
            prev.push(c)
        } else {
            prev
        }
    }
}

/// The edges from `a` to each of `vs`.
pub open spec fn pairs_from(a: Point, vs: Seq<Point>) -> Seq<LineSegment> {
    Seq::new(vs.len(), |j: int| seg(a, vs[j]))
}

/// The edges from each of `us` to each of `vs`, row by row.
pub open spec fn all_pairs(us: Seq<Point>, vs: Seq<Point>) -> Seq<LineSegment>
    decreases us.len(),
{
    if us.len() == 0 {
        seq![]
    } else {
        all_pairs(us.drop_last(), vs) + pairs_from(us.last(), vs)
    }
}

/// The visibility graph between the corners `vs`.
pub open spec fn graph_of(edges: Seq<LineSegment>, vs: Seq<Point>) -> Seq<LineSegment> {
    keep_visible(edges, all_pairs(vs, vs))
}

/// The candidates tried for corner `v` in a query from `loc` to `ptr`.
pub open spec fn corner_candidates(loc: Point, ptr: Point, v: Point, inside: bool) -> Seq<
    LineSegment,
> {
    if inside {
        seq![seg(loc, v), seg(v, ptr)]
    } else {
        seq![seg(loc, v)]
    }
}

/// The candidates of a query from `loc` to `ptr`: the direct edge, then
/// for each corner the edge from `loc` to it and, when `ptr` is inside the
/// region, the edge from it to `ptr`.
pub open spec fn temp_candidates(loc: Point, ptr: Point, vs: Seq<Point>, inside: bool) -> Seq<
    LineSegment,
>
    decreases vs.len(),
{
    if vs.len() == 0 {
        seq![seg(loc, ptr)]
    } else {
        temp_candidates(loc, ptr, vs.drop_last(), inside) + corner_candidates(
            loc,
            ptr,
            vs.last(),
            inside,
        )
    }
}

/// The edges of `es` that leave `p`, in order.
pub open spec fn starting_at(es: Seq<LineSegment>, p: Point) -> Seq<LineSegment>
    decreases es.len(),
{
    if es.len() == 0 {
        seq![]
    } else {
        starting_at(es.drop_last(), p) + if es.last().start == p {
            seq![es.last()]
        } else {
            seq![]
        }
    }
}

/// The edge `e` meets the ray that runs from `p` towards smaller x: it
/// spans `p`'s row (lower end included, upper end excluded) and passes
/// strictly left of `p`.
pub open spec fn ray_hits(e: LineSegment, p: Point) -> bool {
    let dy = e.end.y - e.start.y;
    let lhs = (p.y - e.start.y) * (e.end.x - e.start.x);
    let rhs = (p.x - e.start.x) * dy;
    ((e.start.y > p.y) != (e.end.y > p.y)) && if dy > 0 {
        lhs < rhs
    } else {
        lhs > rhs
    }
}

/// How many edges of `es` the ray from `p` meets.
pub open spec fn crossings(es: Seq<LineSegment>, p: Point) -> nat
    decreases es.len(),
{
    if es.len() == 0 {
        0
    } else {
        crossings(es.drop_last(), p) + if ray_hits(es.last(), p) {
            1nat
        } else {
            0nat
        }
    }
}

pub open spec fn dist_sq(a: Point, b: Point) -> int {
    (a.x - b.x) * (a.x - b.x) + (a.y - b.y) * (a.y - b.y)
}

/// Of the points of `es` nearest to `p`, edge by edge, the first closest.
pub open spec fn nearest_on(es: Seq<LineSegment>, p: Point) -> Point
    decreases es.len(),
{
    if es.len() == 0 {
        p
    } else if es.len() == 1 {
        es[0].closest_point_spec(p)
    } else {
        let best = nearest_on(es.drop_last(), p);
        let c = es.last().closest_point_spec(p);
        if dist_sq(c, p) < dist_sq(best, p) {
            c
        } else {
            best
        }
    }
}

impl WalkBox {
    /// The derived state is that of the region with exterior ring `ext`
    /// and hole rings `holes`, with no temporary edge.
    pub open spec fn built_from(&self, ext: Seq<Point>, holes: Seq<Seq<Point>>) -> bool {
        &&& ext.len() >= 1
        &&& self.edges@ == ring_edges(ext) + hole_edges(holes)
        &&& self.concave_vertices@ == concave_of(ext) + hole_corners(holes)
        &&& self.graph_edges@ == graph_of(self.edges@, self.concave_vertices@)
        &&& self.temp_edges@.len() == 0
        &&& self.xmin == min_x(ext)
        &&& self.xmax == max_x(ext)
        &&& self.ymin == min_y(ext)
        &&& self.ymax == max_y(ext)
    }

    /// The visibility graph is the one of the boundary and the corners.
    pub open spec fn wf(&self) -> bool {
        self.graph_edges@ == graph_of(self.edges@, self.concave_vertices@)
    }

    /// The region holds `p`: `p` lies strictly inside the bounding box and
    /// the ray from `p` meets an odd number of boundary edges.
    pub open spec fn contains_spec(&self, p: Point) -> bool {
        &&& self.xmin < p.x < self.xmax
        &&& self.ymin < p.y < self.ymax
        &&& crossings(self.edges@, p) % 2 == 1
    }

    /// The destination a query towards `p` is given: `p` itself inside the
    /// region, else the nearest boundary point.
    pub open spec fn clamp_spec(&self, p: Point) -> Point {
        if self.contains_spec(p) {
            p
        } else {
            nearest_on(self.edges@, p)
        }
    }

    /// The temporary edges of a query from `loc` to `ptr`.
    pub open spec fn temp_spec(&self, loc: Point, ptr: Point) -> Seq<LineSegment> {
        keep_visible(
            self.edges@,
            temp_candidates(loc, ptr, self.concave_vertices@, self.contains_spec(ptr)),
        )
    }

    /// `self` is `old` with the temporary edges of a query from `loc` to `ptr`.
    pub open spec fn with_temporary(&self, old: WalkBox, loc: Point, ptr: Point) -> bool {
        &&& self.edges == old.edges
        &&& self.concave_vertices == old.concave_vertices
        &&& self.graph_edges == old.graph_edges
        &&& self.xmin == old.xmin
        &&& self.xmax == old.xmax
        &&& self.ymin == old.ymin
        &&& self.ymax == old.ymax
        &&& self.temp_edges@ == old.temp_spec(loc, ptr)
    }

    /// Every edge an agent may walk: the visibility graph, then the
    /// temporary edges.
    pub open spec fn walkable_spec(&self) -> Seq<LineSegment> {
        self.graph_edges@ + self.temp_edges@
    }
}

/// Whether `s` is usable against the boundary `edges`.
fn is_visible(edges: &Vec<LineSegment>, s: LineSegment) -> (r: bool)
    ensures
        r == visible(edges@, s),
{
    if s.start == s.end {
        return false;
    }
    let mut k: usize = 0;
    while k < edges.len()
        invariant
            s.start != s.end,
            k <= edges@.len(),
            forall|j: int| 0 <= j < k ==> !s.crosses_spec(#[trigger] edges@[j]),
        decreases edges@.len() - k,
    {
        if s.crosses(&edges[k]) {
            return false;
        }
        k += 1;
    }
    true
}

/// Whether `list` holds `s`.
fn holds(list: &Vec<LineSegment>, s: LineSegment) -> (r: bool)
    ensures
        r == list@.contains(s),
{
    let mut k: usize = 0;
    while k < list.len()
        invariant
            k <= list@.len(),
            forall|j: int| 0 <= j < k ==> list@[j] != s,
        decreases list@.len() - k,
    {
        if list[k] == s {
            return true;
        }
        k += 1;
    }
    false
}

/// The usable candidates, each kept once, in order.
fn keep_visible_edges(edges: &Vec<LineSegment>, cands: &Vec<LineSegment>) -> (r: Vec<LineSegment>)
    ensures
        r@ == keep_visible(edges@, cands@),
{
    let mut r: Vec<LineSegment> = Vec::new();
    let mut i: usize = 0;
    while i < cands.len()
        invariant
            i <= cands@.len(),
            r@ == keep_visible(edges@, cands@.take(i as int)),
        decreases cands@.len() - i,
    {
        let c = cands[i];
        assert(cands@.take(i + 1).drop_last() =~= cands@.take(i as int));
        if is_visible(edges, c) && !holds(&r, c) {
            r.push(c);
        }
        i += 1;
    }
    assert(cands@.take(cands@.len() as int) =~= cands@);
    r
}

/// The edges from each corner to each corner.
fn corner_pairs(vs: &Vec<Point>) -> (r: Vec<LineSegment>)
    ensures
        r@ == all_pairs(vs@, vs@),
{
    let mut r: Vec<LineSegment> = Vec::new();
    let mut i: usize = 0;
    while i < vs.len()
        invariant
            i <= vs@.len(),
            r@ == all_pairs(vs@.take(i as int), vs@),
        decreases vs@.len() - i,
    {
        let ghost before = r@;
        let mut j: usize = 0;
        while j < vs.len()
            invariant
                i < vs@.len(),
                j <= vs@.len(),
                before == all_pairs(vs@.take(i as int), vs@),
                r@ == before + pairs_from(vs@[i as int], vs@).take(j as int),
            decreases vs@.len() - j,
        {
            r.push(line_segment(vs[i], vs[j]));
            j += 1;
            assert(r@ =~= before + pairs_from(vs@[i as int], vs@).take(j as int));
        }
        assert(vs@.take(i + 1).drop_last() =~= vs@.take(i as int));
        assert(pairs_from(vs@[i as int], vs@).take(vs@.len() as int) =~= pairs_from(vs@[i as int], vs@));
        i += 1;
    }
    assert(vs@.take(vs@.len() as int) =~= vs@);
    r
}

/// The bounding box of a non-empty ring: `(xmin, xmax, ymin, ymax)`.
fn bounds(v: &Vec<Point>) -> (r: (i32, i32, i32, i32))
    requires
        v@.len() >= 1,
    ensures
        r.0 == min_x(v@),
        r.1 == max_x(v@),
        r.2 == min_y(v@),
        r.3 == max_y(v@),
{
    let mut xmin = v[0].x;
    let mut xmax = v[0].x;
    let mut ymin = v[0].y;
    let mut ymax = v[0].y;
    let mut i: usize = 1;
    assert(v@.take(1).len() == 1);
    while i < v.len()
        invariant
            1 <= i <= v@.len(),
            xmin == min_x(v@.take(i as int)),
            xmax == max_x(v@.take(i as int)),
            ymin == min_y(v@.take(i as int)),
            ymax == max_y(v@.take(i as int)),
        decreases v@.len() - i,
    {
        let p = v[i];
        assert(v@.take(i + 1).drop_last() =~= v@.take(i as int));
        if p.x < xmin {
            xmin = p.x;
        }
        if p.x > xmax {
            xmax = p.x;
        }
        if p.y < ymin {
            ymin = p.y;
        }
        if p.y > ymax {
            ymax = p.y;
        }
        i += 1;
    }
    assert(v@.take(v@.len() as int) =~= v@);
    (xmin, xmax, ymin, ymax)
}

/// Whether the ray from `p` towards smaller x meets `e`.
fn ray_meets(e: &LineSegment, p: Point) -> (r: bool)
    ensures
        r == ray_hits(*e, p),
{
    if (e.start.y > p.y) == (e.end.y > p.y) {
        return false;
    }
    let dy = e.end.y as i128 - e.start.y as i128;
    let dx = e.end.x as i128 - e.start.x as i128;
    let py = p.y as i128 - e.start.y as i128;
    let px = p.x as i128 - e.start.x as i128;
    proof {
        lemma_i33_prod(py as int, dx as int);
        lemma_i33_prod(px as int, dy as int);
    }
    let lhs = py * dx;
    let rhs = px * dy;
    if dy > 0 {
        lhs < rhs
    } else {
        lhs > rhs
    }
}

/// The squared distance between two grid points.
fn distance_sq(a: Point, b: Point) -> (r: i128)
    ensures
        r == dist_sq(a, b),
{
    let dx = a.x as i128 - b.x as i128;
    let dy = a.y as i128 - b.y as i128;
    proof {
        lemma_i33_prod(dx as int, dx as int);
        lemma_i33_prod(dy as int, dy as int);
    }
    dx * dx + dy * dy
}

impl WalkBox {
    pub fn new(exterior: Polygon, interior: Vec<Polygon>) -> (r: Self)
        requires
            exterior.wf(),
        ensures
            r.built_from(exterior.vertices@, rings_of(interior@)),
            r.wf(),
    {
        let (xmin, xmax, ymin, ymax) = bounds(&exterior.vertices);
        let mut edges = exterior.edges();
        let mut concave_vertices = exterior.concave_vertices();
        let ghost holes = rings_of(interior@);
        let mut i: usize = 0;
        while i < interior.len()
            invariant
                i <= interior@.len(),
                holes == rings_of(interior@),
                edges@ == ring_edges(exterior.vertices@) + hole_edges(holes.take(i as int)),
                concave_vertices@ == concave_of(exterior.vertices@) + hole_corners(
                    holes.take(i as int),
                ),
            decreases interior@.len() - i,
        {
            let mut he = interior[i].edges();
            let mut hc = interior[i].convex_vertices();
            assert(holes.take(i + 1).drop_last() =~= holes.take(i as int));
            assert(holes.take(i + 1).last() == interior@[i as int].vertices@);
            edges.append(&mut he);
            concave_vertices.append(&mut hc);
            i += 1;
            assert(edges@ =~= ring_edges(exterior.vertices@) + hole_edges(holes.take(i as int)));
            assert(concave_vertices@ =~= concave_of(exterior.vertices@) + hole_corners(
                holes.take(i as int),
            ));
        }
        assert(holes.take(interior@.len() as int) =~= holes);
        let cands = corner_pairs(&concave_vertices);
        let graph_edges = keep_visible_edges(&edges, &cands);
        WalkBox {
            edges,
            concave_vertices,
            graph_edges,
            temp_edges: Vec::new(),
            xmin,
            xmax,
            ymin,
            ymax,
        }
    }

    /// Whether the region holds `p`, by the even-odd rule over every
    /// boundary edge, holes included.
    pub fn contains(&self, p: Point) -> (r: bool)
        ensures
            r == self.contains_spec(p),
    {
        if p.x <= self.xmin || p.x >= self.xmax || p.y <= self.ymin || p.y >= self.ymax {
            return false;
        }
        let mut count: usize = 0;
        let mut k: usize = 0;
        while k < self.edges.len()
            invariant
                k <= self.edges@.len(),
                count == crossings(self.edges@.take(k as int), p),
                count <= k,
            decreases self.edges@.len() - k,
        {
            assert(self.edges@.take(k + 1).drop_last() =~= self.edges@.take(k as int));
            if ray_meets(&self.edges[k], p) {
                count += 1;
            }
            k += 1;
        }
        assert(self.edges@.take(self.edges@.len() as int) =~= self.edges@);
        count % 2 == 1
    }

    /// The walkable destination for a request at `pos`: `pos` itself when
    /// the region holds it, else the nearest point of the boundary.
    pub fn clamp_destination(&self, pos: Point) -> (r: Point)
        ensures
            r == self.clamp_spec(pos),
            !self.contains_spec(pos) ==> forall|k: int|
                0 <= k < self.edges@.len() ==> dist_sq(r, pos) <= dist_sq(
                    #[trigger] self.edges@[k].closest_point_spec(pos),
                    pos,
                ),
    {
        if self.contains(pos) {
            return pos;
        }
        if self.edges.len() == 0 {
            return pos;
        }
        let mut best = self.edges[0].closest_point(pos);
        let mut best_d = distance_sq(best, pos);
        let mut k: usize = 1;
        assert(self.edges@.take(1).len() == 1);
        while k < self.edges.len()
            invariant
                1 <= k <= self.edges@.len(),
                best == nearest_on(self.edges@.take(k as int), pos),
                best_d == dist_sq(best, pos),
                forall|j: int|
                    0 <= j < k ==> dist_sq(best, pos) <= dist_sq(
                        #[trigger] self.edges@[j].closest_point_spec(pos),
                        pos,
                    ),
            decreases self.edges@.len() - k,
        {
            assert(self.edges@.take(k + 1).drop_last() =~= self.edges@.take(k as int));
            let c = self.edges[k].closest_point(pos);
            let d = distance_sq(c, pos);
            if d < best_d {
                best = c;
                best_d = d;
            }
            k += 1;
        }
        assert(self.edges@.take(self.edges@.len() as int) =~= self.edges@);
        best
    }

    /// Replaces the temporary edges with those of a query from `location`
    /// to `pointer`: the direct edge, and edges between `location` and each
    /// corner and, when the region holds `pointer`, between each corner and
    /// `pointer`; each kept when usable and new.
    pub fn add_temporary_edges(&mut self, location: Point, pointer: Point)
        ensures
            final(self).with_temporary(*old(self), location, pointer),
    {
        let inside = self.contains(pointer);
        let mut cands: Vec<LineSegment> = Vec::new();
        cands.push(line_segment(location, pointer));
        let mut i: usize = 0;
        let ghost vs = self.concave_vertices@;
        while i < self.concave_vertices.len()
            invariant
                i <= vs.len(),
                vs == self.concave_vertices@,
                cands@ == temp_candidates(location, pointer, vs.take(i as int), inside),
            decreases vs.len() - i,
        {
            let v = self.concave_vertices[i];
            assert(vs.take(i + 1).drop_last() =~= vs.take(i as int));
            cands.push(line_segment(location, v));
            if inside {
                cands.push(line_segment(v, pointer));
            }
            i += 1;
            assert(cands@ =~= temp_candidates(location, pointer, vs.take(i as int), inside));
        }
        assert(vs.take(vs.len() as int) =~= vs);
        self.temp_edges = keep_visible_edges(&self.edges, &cands);
    }

    /// Finds a path from `start` to `goal` after replacing the temporary
    /// edges with those of this query. `goal` is used as given.
    pub fn compute_path(&mut self, start: Point, goal: Point) -> (r: Option<ShortestPath>)
        ensures
            final(self).with_temporary(*old(self), start, goal),
            r is Some <==> reachable(final(self).walkable_spec(), start, goal),
            r matches Some(p) ==> p.start == start && p.end == goal && walk_between(
                final(self).walkable_spec(),
                start,
                goal,
                p.points@,
            ),
    {
        self.add_temporary_edges(start, goal);
        astar(&*self, start, goal)
    }

    /// Answers a request to walk from `location` towards `pointer`: the
    /// destination is clamped into the region, then a path is searched.
    pub fn navigate(&mut self, location: Point, pointer: Point) -> (r: Option<ShortestPath>)
        ensures
            final(self).with_temporary(*old(self), location, old(self).clamp_spec(pointer)),
            r is Some <==> reachable(
                final(self).walkable_spec(),
                location,
                old(self).clamp_spec(pointer),
            ),
            r matches Some(p) ==> p.start == location && p.end == old(self).clamp_spec(pointer)
                && walk_between(
                final(self).walkable_spec(),
                location,
                old(self).clamp_spec(pointer),
                p.points@,
            ),
    {
        let dest = self.clamp_destination(pointer);
        self.compute_path(location, dest)
    }
}

impl Graph for WalkBox {
    open spec fn edges_view(&self) -> Seq<LineSegment> {
        self.walkable_spec()
    }

    /// The visibility graph followed by the temporary edges.
    fn walkable_edges(&self) -> (r: Vec<LineSegment>) {
        let mut r = self.graph_edges.clone();
        let mut k: usize = 0;
        while k < self.temp_edges.len()
            invariant
                k <= self.temp_edges@.len(),
                r@ == self.graph_edges@ + self.temp_edges@.take(k as int),
            decreases self.temp_edges@.len() - k,
        {
            r.push(self.temp_edges[k]);
            k += 1;
            assert(r@ =~= self.graph_edges@ + self.temp_edges@.take(k as int));
        }
        assert(self.temp_edges@.take(self.temp_edges@.len() as int) =~= self.temp_edges@);
        r
    }

    /// The walkable edges that leave `p`.
    fn neighbours(&self, p: Point) -> (r: Vec<LineSegment>) {
        let all = self.walkable_edges();
        let mut r: Vec<LineSegment> = Vec::new();
        let mut k: usize = 0;
        while k < all.len()
            invariant
                k <= all@.len(),
                r@ == starting_at(all@.take(k as int), p),
            decreases all@.len() - k,
        {
            assert(all@.take(k + 1).drop_last() =~= all@.take(k as int));
            if all[k].start == p {
                r.push(all[k]);
            }
            k += 1;
            assert(r@ =~= starting_at(all@.take(k as int), p));
        }
        assert(all@.take(all@.len() as int) =~= all@);
        r
    }
}

/// The ring of the rectangle with corners `(x0, y0)` and `(x1, y1)`, in the
/// orientation of all rings.
pub open spec fn rect_ring(x0: i32, y0: i32, x1: i32, y1: i32) -> Seq<Point> {
    seq![
        Point { x: x0, y: y0 },
        Point { x: x1, y: y0 },
        Point { x: x1, y: y1 },
        Point { x: x0, y: y1 },
    ]
}

proof fn lemma_rect_edges(x0: i32, y0: i32, x1: i32, y1: i32)
    ensures
        ({
            let r = rect_ring(x0, y0, x1, y1);
            ring_edges(r) + hole_edges(Seq::empty()) == seq![
                seg(r[0], r[1]),
                seg(r[1], r[2]),
                seg(r[2], r[3]),
                seg(r[3], r[0]),
            ]
        }),
{
    let r = rect_ring(x0, y0, x1, y1);
    assert(hole_edges(Seq::<Seq<Point>>::empty()) =~= Seq::<LineSegment>::empty());
    assert(ring_edges(r) + hole_edges(Seq::empty()) =~= seq![
        seg(r[0], r[1]),
        seg(r[1], r[2]),
        seg(r[2], r[3]),
        seg(r[3], r[0]),
    ]);
}

proof fn lemma_rect_bounds(x0: i32, y0: i32, x1: i32, y1: i32)
    requires
        x0 < x1,
        y0 < y1,
    ensures
        min_x(rect_ring(x0, y0, x1, y1)) == x0,
        max_x(rect_ring(x0, y0, x1, y1)) == x1,
        min_y(rect_ring(x0, y0, x1, y1)) == y0,
        max_y(rect_ring(x0, y0, x1, y1)) == y1,
{
    let r = rect_ring(x0, y0, x1, y1);
    assert(r.drop_last() =~= seq![r[0], r[1], r[2]]);
    assert(r.drop_last().drop_last() =~= seq![r[0], r[1]]);
    assert(r.drop_last().drop_last().drop_last() =~= seq![r[0]]);
    reveal_with_fuel(min_x, 4);
    reveal_with_fuel(max_x, 4);
    reveal_with_fuel(min_y, 4);
    reveal_with_fuel(max_y, 4);
}

/// The rectangle's ring turns outward at each corner, so it has no reflex
/// vertex.
proof fn lemma_rect_has_no_corner(x0: i32, y0: i32, x1: i32, y1: i32)
    requires
        x0 < x1,
        y0 < y1,
    ensures
        concave_of(rect_ring(x0, y0, x1, y1)) == Seq::<Point>::empty(),
{
    let r = rect_ring(x0, y0, x1, y1);
    let (w, h) = (x1 - x0, y1 - y0);
    assert(w * h > 0) by (nonlinear_arith)
        requires
            w > 0,
            h > 0,
    ;
    assert forall|i: int| 0 <= i < 4 implies !reflex_at(r, i) by {
        assert(turn_of(r[prev_index(i, 4)], r[i], r[next_index(i, 4)]) == w * h) by (nonlinear_arith)
            requires
                0 <= i < 4,
                w == x1 - x0,
                h == y1 - y0,
                r[0] == (Point { x: x0, y: y0 }),
                r[1] == (Point { x: x1, y: y0 }),
                r[2] == (Point { x: x1, y: y1 }),
                r[3] == (Point { x: x0, y: y1 }),
                prev_index(i, 4) == if i == 0 {
                    3
                } else {
                    i - 1
                },
                next_index(i, 4) == if i == 3 {
                    0
                } else {
                    i + 1
                },
        ;
    }
    lemma_convex_quadrilateral_has_no_concave_vertex(r);
}

/// In a rectangular region without holes, the centre of the rectangle lies
/// inside, and no point outside the rectangle does.
pub proof fn lemma_rectangle_contains_centre(wb: WalkBox, x0: i32, y0: i32, x1: i32, y1: i32)
    requires
        x0 + 2 <= x1,
        y0 + 2 <= y1,
        wb.built_from(rect_ring(x0, y0, x1, y1), Seq::empty()),
    ensures
        wb.contains_spec(Point { x: ((x0 + x1) / 2) as i32, y: ((y0 + y1) / 2) as i32 }),
        forall|p: Point| (p.x < x0 || p.x > x1 || p.y < y0 || p.y > y1) ==> !wb.contains_spec(p),
{
    lemma_rect_bounds(x0, y0, x1, y1);
    lemma_rect_edges(x0, y0, x1, y1);
    let r = rect_ring(x0, y0, x1, y1);
    let c = Point { x: ((x0 + x1) / 2) as i32, y: ((y0 + y1) / 2) as i32 };
    assert(x0 < c.x < x1 && y0 < c.y < y1);
    let es = wb.edges@;
    assert(!ray_hits(es[0], c));
    assert(!ray_hits(es[1], c)) by {
        assert((c.x - x1) * (y1 - y0) < 0) by (nonlinear_arith)
            requires
                c.x < x1,
                y0 < y1,
        ;
    }
    assert(!ray_hits(es[2], c));
    assert(ray_hits(es[3], c)) by {
        assert((c.x - x0) * (y0 - y1) < 0) by (nonlinear_arith)
            requires
                c.x > x0,
                y0 < y1,
        ;
    }
    assert(es.drop_last() =~= seq![es[0], es[1], es[2]]);
    assert(es.drop_last().drop_last() =~= seq![es[0], es[1]]);
    assert(es.drop_last().drop_last().drop_last() =~= seq![es[0]]);
    assert(es.drop_last().drop_last().drop_last().drop_last() =~= Seq::<LineSegment>::empty());
    reveal_with_fuel(crossings, 5);
    assert(crossings(es, c) == 1);
}

/// In a rectangular region without holes, a query between two points whose
/// straight segment is usable has that segment as its only walkable edge,
/// and the two points are the only walk between them.
pub proof fn lemma_open_corridor(
    a: WalkBox,
    b: WalkBox,
    x0: i32,
    y0: i32,
    x1: i32,
    y1: i32,
    s: Point,
    g: Point,
)
    requires
        x0 < x1,
        y0 < y1,
        a.built_from(rect_ring(x0, y0, x1, y1), Seq::empty()),
        b.with_temporary(a, s, g),
        visible(a.edges@, seg(s, g)),
    ensures
        b.walkable_spec() == seq![seg(s, g)],
        reachable(b.walkable_spec(), s, g),
        forall|pts: Seq<Point>| walk_between(b.walkable_spec(), s, g, pts) ==> pts == seq![s, g],
{
    lemma_rect_has_no_corner(x0, y0, x1, y1);
    assert(hole_corners(Seq::<Seq<Point>>::empty()) =~= Seq::<Point>::empty());
    let vs = a.concave_vertices@;
    assert(vs =~= Seq::<Point>::empty());
    assert(all_pairs(vs, vs) =~= Seq::<LineSegment>::empty());
    assert(a.graph_edges@ =~= Seq::<LineSegment>::empty());
    let cands = temp_candidates(s, g, vs, a.contains_spec(g));
    assert(cands =~= seq![seg(s, g)]);
    assert(cands.drop_last() =~= Seq::<LineSegment>::empty());
    assert(b.temp_edges@ =~= seq![seg(s, g)]);
    let es = b.walkable_spec();
    assert(es =~= seq![seg(s, g)]);
    let w = seq![s, g];
    assert(es.contains(seg(w[0], w[1]))) by {
        assert(es[0] == seg(s, g));
    }
    assert(walk_between(es, s, g, w));
    assert forall|pts: Seq<Point>| walk_between(es, s, g, pts) implies pts == seq![s, g] by {
        assert forall|i: int| 0 <= i < pts.len() - 1 implies #[trigger] pts[i] == s && pts[i + 1] == g by {
            assert(es.contains(seg(pts[i], pts[i + 1])));
            let k = choose|k: int| 0 <= k < es.len() && es[k] == seg(pts[i], pts[i + 1]);
        }
        if pts.len() == 1 {
            assert(pts[0] == pts.last());
        }
        if pts.len() >= 3 {
            let z: int = 0;
            let o: int = 1;
            assert(pts[z + 1] == g);
            assert(pts[o] == s);
        }
        assert(pts.len() == 2);
        assert(pts =~= seq![s, g]);
    }
}

/// Every edge kept from the candidates is usable.
pub proof fn lemma_kept_edges_are_visible(edges: Seq<LineSegment>, cands: Seq<LineSegment>)
    ensures
        forall|k: int|
            0 <= k < keep_visible(edges, cands).len() ==> visible(
                edges,
                #[trigger] keep_visible(edges, cands)[k],
            ),
    decreases cands.len(),
{
    if cands.len() > 0 {
        lemma_kept_edges_are_visible(edges, cands.drop_last());
        let prev = keep_visible(edges, cands.drop_last());
        let c = cands.last();
        assert forall|k: int|
            0 <= k < keep_visible(edges, cands).len() implies visible(
            edges,
            #[trigger] keep_visible(edges, cands)[k],
        ) by {
            if k < prev.len() {
                assert(keep_visible(edges, cands)[k] == prev[k]);
            } else {
                assert(keep_visible(edges, cands)[k] == c);
            }
        }
    }
}

/// After the temporary edges of a query are added, each step of every walk
/// along the walkable edges is a segment that crosses no boundary edge.
pub proof fn lemma_walks_cross_no_boundary(
    a: WalkBox,
    b: WalkBox,
    loc: Point,
    ptr: Point,
    pts: Seq<Point>,
)
    requires
        a.wf(),
        b.with_temporary(a, loc, ptr),
        is_walk(b.walkable_spec(), pts),
    ensures
        forall|i: int|
            0 <= i < pts.len() - 1 ==> visible(b.edges@, #[trigger] seg(pts[i], pts[i + 1])),
{
    lemma_kept_edges_are_visible(a.edges@, all_pairs(a.concave_vertices@, a.concave_vertices@));
    lemma_kept_edges_are_visible(
        a.edges@,
        temp_candidates(loc, ptr, a.concave_vertices@, a.contains_spec(ptr)),
    );
    let es = b.walkable_spec();
    assert forall|i: int| 0 <= i < pts.len() - 1 implies visible(
        b.edges@,
        #[trigger] seg(pts[i], pts[i + 1]),
    ) by {
        assert(es.contains(seg(pts[i], pts[i + 1])));
        let k = choose|k: int| 0 <= k < es.len() && es[k] == seg(pts[i], pts[i + 1]);
        if k < b.graph_edges@.len() {
            assert(es[k] == b.graph_edges@[k]);
        } else {
            assert(es[k] == b.temp_edges@[k - b.graph_edges@.len()]);
        }
    }
}

/// Adding the temporary edges of the same query twice leaves the walkable
/// edges as the first time left them.
pub proof fn lemma_temporary_edges_idempotent(
    a: WalkBox,
    b: WalkBox,
    c: WalkBox,
    loc: Point,
    ptr: Point,
)
    requires
        b.with_temporary(a, loc, ptr),
        c.with_temporary(b, loc, ptr),
    ensures
        c.walkable_spec() == b.walkable_spec(),
        c.walkable_spec().len() == b.walkable_spec().len(),
{
    assert(b.contains_spec(ptr) == a.contains_spec(ptr));
    assert(c.temp_edges@ == b.temp_edges@);
}

} // verus!
