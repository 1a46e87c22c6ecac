use vstd::prelude::*;

use crate::point::Point;
use crate::segment::{line_segment, LineSegment};
use crate::walkbox::{seg, starting_at};

verus! {

/// What a graph search needs of a graph: its edges, and the edges that
/// leave a point.
pub trait Graph {
    /// Every walkable edge, in order.
    spec fn edges_view(&self) -> Seq<LineSegment>;

    fn walkable_edges(&self) -> (r: Vec<LineSegment>)
        ensures
            r@ == self.edges_view(),
    ;

    fn neighbours(&self, p: Point) -> (r: Vec<LineSegment>)
        ensures
            r@ == starting_at(self.edges_view(), p),
    ;
}

/// A path found by the search, from `start` to `end`, through `points`.
#[derive(Debug, Clone, PartialEq, Eq, Default)]
pub struct ShortestPath {
    pub start: Point,
    pub end: Point,
    pub points: Vec<Point>,
}

/// `pts` is a walk of at least one point along edges of `es`.
pub open spec fn is_walk(es: Seq<LineSegment>, pts: Seq<Point>) -> bool {
    &&& pts.len() >= 1
    &&& forall|i: int| 0 <= i < pts.len() - 1 ==> es.contains(#[trigger] seg(pts[i], pts[i + 1]))
}

/// `pts` is a walk along `es` from `a` to `b`.
pub open spec fn walk_between(es: Seq<LineSegment>, a: Point, b: Point, pts: Seq<Point>) -> bool {
    is_walk(es, pts) && pts[0] == a && pts.last() == b
}

/// Some walk along `es` leads from `a` to `b`.
pub open spec fn reachable(es: Seq<LineSegment>, a: Point, b: Point) -> bool {
    exists|pts: Seq<Point>| walk_between(es, a, b, pts)
}

/// The segments between consecutive points of `pts`.
pub open spec fn path_lines(pts: Seq<Point>) -> Seq<LineSegment> {
    Seq::new(
        if pts.len() == 0 {
            0
        } else {
            (pts.len() - 1) as nat
        },
        |i: int| seg(pts[i], pts[i + 1]),
    )
}

impl ShortestPath {
    pub fn points(&self) -> (r: &Vec<Point>)
        ensures
            r@ == self.points@,
    {
        &self.points
    }

    /// The segments between consecutive points of the path.
    pub fn lines(&self) -> (r: Vec<LineSegment>)
        ensures
            r@ == path_lines(self.points@),
    {
        let mut r: Vec<LineSegment> = Vec::new();
        let n = self.points.len();
        if n == 0 {
            assert(r@ =~= path_lines(self.points@));
            return r;
        }
        let mut i: usize = 0;
        while i + 1 < n
            invariant
                n == self.points@.len(),
                n >= 1,
                i + 1 <= n,
                r@.len() == i,
                forall|j: int| 0 <= j < i ==> r@[j] == seg(self.points@[j], self.points@[j + 1]),
            decreases n - i,
        {
            r.push(line_segment(self.points[i], self.points[i + 1]));
            i += 1;
        }
        assert(r@ =~= path_lines(self.points@));
        r
    }
}

/// The position of `p` among `nodes`.
pub open spec fn index_in(nodes: Seq<Point>, p: Point) -> int {
    choose|m: int| 0 <= m < nodes.len() && nodes[m] == p
}

/// No point stands twice among `nodes`.
pub open spec fn unique(nodes: Seq<Point>) -> bool {
    forall|i: int, j: int|
        0 <= i < nodes.len() && 0 <= j < nodes.len() && i != j ==> nodes[i] != nodes[j]
}

/// The search has recorded a cost for the position of `p`.
pub open spec fn seen(nodes: Seq<Point>, dist: Seq<Option<u64>>, p: Point) -> bool {
    nodes.contains(p) && dist[index_in(nodes, p)] is Some
}

/// Every edge that leaves node `i` leads to a position with a cost.
pub open spec fn closed(
    es: Seq<LineSegment>,
    nodes: Seq<Point>,
    dist: Seq<Option<u64>>,
    i: int,
) -> bool {
    forall|k: int|
        0 <= k < es.len() && (#[trigger] es[k]).start == nodes[i] ==> seen(nodes, dist, es[k].end)
}

/// Some frontier entry is for node `i`.
pub open spec fn pending(f: Seq<(u64, u64, usize)>, i: int) -> bool {
    exists|j: int| 0 <= j < f.len() && f[j].2 == i
}

/// Node `a` was settled before node `b`: a lower cost, or an equal cost
/// recorded earlier.
pub open spec fn before(dist: Seq<Option<u64>>, ts: Seq<nat>, a: int, b: int) -> bool {
    dist[a]->Some_0 < dist[b]->Some_0 || (dist[a]->Some_0 == dist[b]->Some_0 && ts[a] < ts[b])
}

/// The predecessor links lead back along edges of `es` to node 0, each
/// step to a node settled before.
pub open spec fn links_ok(
    es: Seq<LineSegment>,
    nodes: Seq<Point>,
    dist: Seq<Option<u64>>,
    pred: Seq<usize>,
    ts: Seq<nat>,
) -> bool {
    forall|i: int|
        0 < i < nodes.len() && (#[trigger] dist[i]) is Some ==> {
            &&& pred[i] < nodes.len()
            &&& dist[pred[i] as int] is Some
            &&& es.contains(seg(nodes[pred[i] as int], nodes[i]))
            &&& before(dist, ts, pred[i] as int, i)
        }
}

pub open spec fn rank(d: Option<u64>) -> nat {
    match d {
        Some(c) => c as nat,
        None => 0x1_0000_0000_0000_0000,
    }
}

/// The sum of the ranks of all recorded costs; it falls with each
/// improvement.
pub open spec fn potential(ds: Seq<Option<u64>>) -> nat
    decreases ds.len(),
{
    if ds.len() == 0 {
        0
    } else {
        potential(ds.drop_last()) + rank(ds.last())
    }
}

proof fn lemma_potential_update(ds: Seq<Option<u64>>, i: int, x: Option<u64>)
    requires
        0 <= i < ds.len(),
    ensures
        potential(ds.update(i, x)) + rank(ds[i]) == potential(ds) + rank(x),
    decreases ds.len(),
{
    let u = ds.update(i, x);
    if i == ds.len() - 1 {
        assert(u.drop_last() =~= ds.drop_last());
    } else {
        assert(u.drop_last() =~= ds.drop_last().update(i, x));
        lemma_potential_update(ds.drop_last(), i, x);
    }
}

proof fn lemma_starting_at(es: Seq<LineSegment>, p: Point)
    ensures
        forall|e: LineSegment| #[trigger]
            starting_at(es, p).contains(e) <==> (es.contains(e) && e.start == p),
    decreases es.len(),
{
    if es.len() > 0 {
        lemma_starting_at(es.drop_last(), p);
        let prev = starting_at(es.drop_last(), p);
        assert forall|e: LineSegment| #[trigger]
            starting_at(es, p).contains(e) <==> (es.contains(e) && e.start == p) by {
            if es.contains(e) && e.start == p {
                let k = choose|k: int| 0 <= k < es.len() && es[k] == e;
                if k < es.len() - 1 {
                    assert(es.drop_last()[k] == e);
                    assert(prev.contains(e));
                    let j = choose|j: int| 0 <= j < prev.len() && prev[j] == e;
                    assert(starting_at(es, p)[j] == e);
                } else {
                    assert(starting_at(es, p)[prev.len() as int] == e);
                }
            }
            if starting_at(es, p).contains(e) {
                let j = choose|j: int|
                    0 <= j < starting_at(es, p).len() && starting_at(es, p)[j] == e;
                if j < prev.len() {
                    assert(prev[j] == e);
                    assert(prev.contains(e));
                    let k = choose|k: int| 0 <= k < es.drop_last().len() && es.drop_last()[k] == e;
                    assert(es[k] == e);
                } else {
                    assert(es[es.len() - 1] == e);
                }
            }
        }
    }
}

/// From a closed set of positions, every walk stays inside it.
proof fn lemma_walk_stays_seen(
    es: Seq<LineSegment>,
    nodes: Seq<Point>,
    dist: Seq<Option<u64>>,
    pts: Seq<Point>,
)
    requires
        dist.len() == nodes.len(),
        forall|k: int| 0 <= k < es.len() ==> nodes.contains(#[trigger] es[k].end),
        forall|i: int| 0 <= i < nodes.len() && (#[trigger] dist[i]) is Some ==> closed(es, nodes, dist, i),
        is_walk(es, pts),
        nodes.contains(pts[0]),
        seen(nodes, dist, pts[0]),
    ensures
        nodes.contains(pts.last()),
        seen(nodes, dist, pts.last()),
    decreases pts.len(),
{
    if pts.len() > 1 {
        let z: int = 0;
        assert(es.contains(seg(pts[z], pts[z + 1])));
        let k = choose|k: int| 0 <= k < es.len() && es[k] == seg(pts[0], pts[1]);
        let i = index_in(nodes, pts[0]);
        assert(nodes[i] == pts[0]);
        assert(closed(es, nodes, dist, i));
        assert(es[k].start == nodes[i]);
        assert(nodes.contains(es[k].end));
        let rest = pts.subrange(1, pts.len() as int);
        assert forall|j: int| 0 <= j < rest.len() - 1 implies es.contains(
            #[trigger] seg(rest[j], rest[j + 1]),
        ) by {
            assert(rest[j] == pts[j + 1] && rest[j + 1] == pts[j + 2]);
            assert(es.contains(seg(pts[j + 1], pts[(j + 1) + 1])));
        }
        lemma_walk_stays_seen(es, nodes, dist, rest);
        assert(rest.last() == pts.last());
    }
}

/// The position of `p` among `nodes`, if it stands there.
fn index_of(nodes: &Vec<Point>, p: Point) -> (r: Option<usize>)
    ensures
        r matches Some(i) ==> i < nodes@.len() && nodes@[i as int] == p,
        r is None ==> !nodes@.contains(p),
{
    let mut i: usize = 0;
    while i < nodes.len()
        invariant
            i <= nodes@.len(),
            forall|j: int| 0 <= j < i ==> nodes@[j] != p,
        decreases nodes@.len() - i,
    {
        if nodes[i] == p {
            return Some(i);
        }
        i += 1;
    }
    None
}

/// `start`, then each edge's end once, in order of first appearance.
fn collect_nodes(edges: &Vec<LineSegment>, start: Point) -> (r: Vec<Point>)
    ensures
        r@.len() >= 1,
        r@[0] == start,
        unique(r@),
        forall|k: int| 0 <= k < edges@.len() ==> r@.contains(#[trigger] edges@[k].end),
{
    let mut r: Vec<Point> = Vec::new();
    r.push(start);
    let mut k: usize = 0;
    while k < edges.len()
        invariant
            k <= edges@.len(),
            r@.len() >= 1,
            r@[0] == start,
            unique(r@),
            forall|j: int| 0 <= j < k ==> r@.contains(#[trigger] edges@[j].end),
        decreases edges@.len() - k,
    {
        let p = edges[k].end;
        match index_of(&r, p) {
            Some(m) => {
                assert(r@[m as int] == p);
            },
            None => {
                let ghost before_push = r@;
                r.push(p);
                assert forall|j: int| 0 <= j < k implies r@.contains(#[trigger] edges@[j].end) by {
                    let m = choose|m: int| 0 <= m < before_push.len() && before_push[m] == edges@[j].end;
                    assert(r@[m] == edges@[j].end);
                }
                assert(r@[r@.len() - 1] == p);
                assert forall|i: int, j: int|
                    0 <= i < r@.len() && 0 <= j < r@.len() && i != j implies r@[i] != r@[j] by {
                    if i < before_push.len() && j < before_push.len() {
                        assert(r@[i] == before_push[i] && r@[j] == before_push[j]);
                    } else if i < before_push.len() {
                        assert(r@[i] == before_push[i]);
                        assert(before_push[i] != p);
                    } else if j < before_push.len() {
                        assert(r@[j] == before_push[j]);
                        assert(before_push[j] != p);
                    }
                }
            },
        }
        k += 1;
    }
    r
}

/// `a` comes before `b` in the order of positions: by x, then by y.
pub open spec fn position_less(a: Point, b: Point) -> bool {
    a.x < b.x || (a.x == b.x && a.y < b.y)
}

/// The frontier entry to expand next: the lowest priority, and of equal
/// priorities the greatest position.
fn best_entry(frontier: &Vec<(u64, u64, usize)>, nodes: &Vec<Point>) -> (r: usize)
    requires
        frontier@.len() > 0,
        forall|j: int| 0 <= j < frontier@.len() ==> (#[trigger] frontier@[j]).2 < nodes@.len(),
    ensures
        r < frontier@.len(),
        forall|j: int|
            0 <= j < frontier@.len() ==> frontier@[r as int].0 <= (#[trigger] frontier@[j]).0,
        forall|j: int|
            0 <= j < frontier@.len() && (#[trigger] frontier@[j]).0 == frontier@[r as int].0
                ==> !position_less(nodes@[frontier@[r as int].2 as int], nodes@[frontier@[j].2 as int]),
{
    let mut b: usize = 0;
    let mut j: usize = 1;
    while j < frontier.len()
        invariant
            1 <= j <= frontier@.len(),
            b < j,
            forall|i: int| 0 <= i < frontier@.len() ==> (#[trigger] frontier@[i]).2 < nodes@.len(),
            forall|i: int| 0 <= i < j ==> frontier@[b as int].0 <= (#[trigger] frontier@[i]).0,
            forall|i: int|
                0 <= i < j && (#[trigger] frontier@[i]).0 == frontier@[b as int].0 ==> !position_less(
                    nodes@[frontier@[b as int].2 as int],
                    nodes@[frontier@[i].2 as int],
                ),
        decreases frontier@.len() - j,
    {
        let (pj, _, nj) = frontier[j];
        let (pb, _, nb) = frontier[b];
        let pj_pos = nodes[nj];
        let pb_pos = nodes[nb];
        if pj < pb || (pj == pb && (pb_pos.x < pj_pos.x || (pb_pos.x == pj_pos.x && pb_pos.y
            < pj_pos.y))) {
            b = j;
        }
        j += 1;
    }
    b
}

proof fn lemma_pending_after_swap_remove(f: Seq<(u64, u64, usize)>, b: int, i: int)
    requires
        0 <= b < f.len(),
        pending(f, i),
        f[b].2 != i,
    ensures
        pending(f.update(b, f.last()).drop_last(), i),
{
    let j = choose|j: int| 0 <= j < f.len() && f[j].2 == i;
    let g = f.update(b, f.last()).drop_last();
    if j == f.len() - 1 {
        assert(g[b].2 == i);
    } else {
        assert(g[j].2 == i);
    }
}

proof fn lemma_pending_push(f: Seq<(u64, u64, usize)>, x: (u64, u64, usize), i: int)
    requires
        pending(f, i),
    ensures
        pending(f.push(x), i),
{
    let j = choose|j: int| 0 <= j < f.len() && f[j].2 == i;
    assert(f.push(x)[j].2 == i);
}

/// With distinct nodes, the position of a node's point is that node.
proof fn lemma_index_in(nodes: Seq<Point>, i: int)
    requires
        unique(nodes),
        0 <= i < nodes.len(),
    ensures
        index_in(nodes, nodes[i]) == i,
{
    let p = nodes[i];
    assert(0 <= i < nodes.len() && nodes[i] == p);
    let m = index_in(nodes, p);
    assert(nodes[m] == p);
}

/// Walks the predecessor links back from node `goal_idx` to node 0.
fn assemble_path(
    nodes: &Vec<Point>,
    pred: &Vec<usize>,
    goal_idx: usize,
    Ghost(es): Ghost<Seq<LineSegment>>,
    Ghost(dist): Ghost<Seq<Option<u64>>>,
    Ghost(ts): Ghost<Seq<nat>>,
) -> (r: Vec<Point>)
    requires
        pred@.len() == nodes@.len(),
        dist.len() == nodes@.len(),
        ts.len() == nodes@.len(),
        goal_idx < nodes@.len(),
        dist[goal_idx as int] is Some,
        links_ok(es, nodes@, dist, pred@, ts),
    ensures
        walk_between(es, nodes@[0], nodes@[goal_idx as int], r@),
{
    let mut path: Vec<Point> = Vec::new();
    path.push(nodes[goal_idx]);
    let mut cur = goal_idx;
    while cur != 0
        invariant
            pred@.len() == nodes@.len(),
            dist.len() == nodes@.len(),
            ts.len() == nodes@.len(),
            cur < nodes@.len(),
            dist[cur as int] is Some,
            links_ok(es, nodes@, dist, pred@, ts),
            is_walk(es, path@),
            path@[0] == nodes@[cur as int],
            path@.last() == nodes@[goal_idx as int],
        decreases dist[cur as int]->Some_0, ts[cur as int],
    {
        assert(dist[cur as int] is Some);
        let p = pred[cur];
        let ghost old_path = path@;
        path.insert(0, nodes[p]);
        assert forall|i: int| 0 <= i < path@.len() - 1 implies es.contains(
            #[trigger] seg(path@[i], path@[i + 1]),
        ) by {
            if i > 0 {
                assert(path@[i] == old_path[i - 1] && path@[i + 1] == old_path[(i - 1) + 1]);
            }
        }
        cur = p;
    }
    path
}

/// A* search from `start` to `goal` over the edges of `graph`. The
/// frontier is ordered by cost so far plus the straight-line distance from
/// the expanded position to `goal`; ties go to the greater position. The
/// result is a walk along the graph's edges, and there is one exactly when
/// `goal` can be reached.
pub fn astar<G: Graph>(graph: &G, start: Point, goal: Point) -> (r: Option<ShortestPath>)
    ensures
        r is Some <==> reachable(graph.edges_view(), start, goal),
        r matches Some(p) ==> p.start == start && p.end == goal && walk_between(
            graph.edges_view(),
            start,
            goal,
            p.points@,
        ),
{
    let ghost es = graph.edges_view();
    let edges = graph.walkable_edges();
    let nodes = collect_nodes(&edges, start);
    let n = nodes.len();
    let mut dist: Vec<Option<u64>> = Vec::new();
    let mut pred: Vec<usize> = Vec::new();
    let mut i: usize = 0;
    while i < n
        invariant
            i <= n,
            dist@.len() == i,
            pred@.len() == i,
            forall|j: int| 0 <= j < i ==> (#[trigger] dist@[j]) == if j == 0 {
                Some(0u64)
            } else {
                None::<u64>
            },
        decreases n - i,
    {
        if i == 0 {
            dist.push(Some(0));
        } else {
            dist.push(None);
        }
        pred.push(0);
        i += 1;
    }
    let ghost mut ts: Seq<nat> = Seq::new(n as nat, |j: int| 0nat);
    let ghost mut now: nat = 1;
    let mut frontier: Vec<(u64, u64, usize)> = Vec::new();
    frontier.push((0, 0, 0));
    proof {
        lemma_index_in(nodes@, 0);
        assert forall|i: int| 0 <= i < n && (#[trigger] dist@[i]) is Some implies pending(
            frontier@,
            i,
        ) by {
            assert(frontier@[0].2 == i);
        }
    }
    while frontier.len() > 0
        invariant
            nodes@.len() == n,
            n >= 1,
            nodes@[0] == start,
            unique(nodes@),
            es == graph.edges_view(),
            forall|k: int| 0 <= k < es.len() ==> nodes@.contains(#[trigger] es[k].end),
            dist@.len() == n,
            pred@.len() == n,
            ts.len() == n,
            dist@[0] == Some(0u64),
            forall|j: int|
                0 <= j < frontier@.len() ==> {
                    &&& (#[trigger] frontier@[j]).2 < n
                    &&& dist@[frontier@[j].2 as int] is Some
                    &&& frontier@[j].1 >= dist@[frontier@[j].2 as int]->Some_0
                },
            links_ok(es, nodes@, dist@, pred@, ts),
            forall|i: int| 0 <= i < n ==> ts[i] < now,
            forall|i: int|
                0 <= i < n && (#[trigger] dist@[i]) is Some ==> pending(frontier@, i) || (
                nodes@[i] != goal && closed(es, nodes@, dist@, i)),
        decreases frontier@.len() + 2 * potential(dist@),
    {
        let b = best_entry(&frontier, &nodes);
        let ghost f0 = frontier@;
        let ghost m0 = frontier@.len() + 2 * potential(dist@);
        let (_, cost, v) = frontier.swap_remove(b);
        assert(f0[b as int].2 == v);
        if nodes[v] == goal {
            let points = assemble_path(&nodes, &pred, v, Ghost(es), Ghost(dist@), Ghost(ts));
            assert(walk_between(es, start, goal, points@));
            return Some(ShortestPath { start, end: goal, points });
        }
        proof {
            assert forall|i: int|
                0 <= i < n && i != v && (#[trigger] dist@[i]) is Some implies pending(
                frontier@,
                i,
            ) || (nodes@[i] != goal && closed(es, nodes@, dist@, i)) by {
                if pending(f0, i) {
                    lemma_pending_after_swap_remove(f0, b as int, i);
                }
            }
        }
        let here = nodes[v];
        let h = line_segment(here, goal).length();
        let nb = graph.neighbours(here);
        proof {
            lemma_starting_at(es, here);
        }
        let mut k: usize = 0;
        while k < nb.len()
            invariant
                nodes@.len() == n,
                n >= 1,
                nodes@[0] == start,
                unique(nodes@),
                es == graph.edges_view(),
                forall|kk: int| 0 <= kk < es.len() ==> nodes@.contains(#[trigger] es[kk].end),
                forall|e: LineSegment| #[trigger]
                    starting_at(es, here).contains(e) <==> (es.contains(e) && e.start == here),
                dist@.len() == n,
                pred@.len() == n,
                ts.len() == n,
                dist@[0] == Some(0u64),
                forall|j: int|
                    0 <= j < frontier@.len() ==> {
                        &&& (#[trigger] frontier@[j]).2 < n
                        &&& dist@[frontier@[j].2 as int] is Some
                        &&& frontier@[j].1 >= dist@[frontier@[j].2 as int]->Some_0
                    },
                links_ok(es, nodes@, dist@, pred@, ts),
                forall|i: int| 0 <= i < n ==> ts[i] < now,
                nb@ == starting_at(es, here),
                v < n,
                here == nodes@[v as int],
                here != goal,
                dist@[v as int] is Some,
                cost >= dist@[v as int]->Some_0,
                k <= nb@.len(),
                forall|i: int|
                    0 <= i < n && i != v && (#[trigger] dist@[i]) is Some ==> pending(frontier@, i)
                        || (nodes@[i] != goal && closed(es, nodes@, dist@, i)),
                forall|kk: int| 0 <= kk < k ==> seen(nodes@, dist@, (#[trigger] nb@[kk]).end),
                frontier@.len() + 2 * potential(dist@) < m0,
            decreases nb@.len() - k,
        {
            let e = nb[k];
            assert(nb@.contains(e));
            assert(es.contains(e) && e.start == here);
            let ghost ke = choose|ke: int| 0 <= ke < es.len() && es[ke] == e;
            assert(nodes@.contains(es[ke].end));
            match index_of(&nodes, e.end) {
                Some(w) => {
                    proof {
                        lemma_index_in(nodes@, w as int);
                    }
                    let cand = cost.saturating_add(e.length());
                    let better = match dist[w] {
                        None => true,
                        Some(d) => cand < d,
                    };
                    if better {
                        let ghost d0 = dist@;
                        let ghost p0 = pred@;
                        let ghost t0 = ts;
                        let ghost fr0 = frontier@;
                        proof {
                            lemma_potential_update(dist@, w as int, Some(cand));
                        }
                        dist.set(w, Some(cand));
                        pred.set(w, v);
                        proof {
                            ts = ts.update(w as int, now);
                            now = now + 1;
                        }
                        frontier.push((cand.saturating_add(h), cand, w));
                        proof {
                            assert(w != v);
                            assert(e == seg(nodes@[v as int], nodes@[w as int]));
                            assert forall|i: int|
                                0 < i < n && (#[trigger] dist@[i]) is Some implies {
                                &&& pred@[i] < n
                                &&& dist@[pred@[i] as int] is Some
                                &&& es.contains(seg(nodes@[pred@[i] as int], nodes@[i]))
                                &&& before(dist@, ts, pred@[i] as int, i)
                            } by {
                                if i != w {
                                    assert(d0[i] is Some);
                                    assert(p0[i] == pred@[i]);
                                }
                            }
                            assert forall|i: int|
                                0 <= i < n && i != v && (#[trigger] dist@[i]) is Some implies pending(
                                frontier@,
                                i,
                            ) || (nodes@[i] != goal && closed(es, nodes@, dist@, i)) by {
                                if i == w {
                                    assert(frontier@[fr0.len() as int].2 == i);
                                } else {
                                    assert(d0[i] is Some);
                                    if pending(fr0, i) {
                                        lemma_pending_push(fr0, (cand.saturating_add(h), cand, w), i);
                                    } else {
                                        assert(closed(es, nodes@, d0, i));
                                        assert forall|kk: int|
                                            0 <= kk < es.len() && (#[trigger] es[kk]).start
                                                == nodes@[i] implies seen(nodes@, dist@, es[kk].end) by {
                                            assert(seen(nodes@, d0, es[kk].end));
                                        }
                                    }
                                }
                            }
                            assert forall|kk: int| 0 <= kk < k implies seen(
                                nodes@,
                                dist@,
                                (#[trigger] nb@[kk]).end,
                            ) by {
                                assert(seen(nodes@, d0, nb@[kk].end));
                            }
                        }
                    }
                    assert(seen(nodes@, dist@, e.end));
                },
                None => {},
            }
            k += 1;
        }
        proof {
            assert forall|kk: int|
                0 <= kk < es.len() && (#[trigger] es[kk]).start == nodes@[v as int] implies seen(
                nodes@,
                dist@,
                es[kk].end,
            ) by {
                assert(starting_at(es, here).contains(es[kk]));
                let j = choose|j: int| 0 <= j < nb@.len() && nb@[j] == es[kk];
                assert(seen(nodes@, dist@, nb@[j].end));
            }
            assert(closed(es, nodes@, dist@, v as int));
        }
    }
    proof {
        if reachable(es, start, goal) {
            let pts = choose|pts: Seq<Point>| walk_between(es, start, goal, pts);
            lemma_index_in(nodes@, 0);
            assert(nodes@.contains(start)) by {
                assert(nodes@[0] == start);
            }
            lemma_walk_stays_seen(es, nodes@, dist@, pts);
            let gi = index_in(nodes@, goal);
            assert(nodes@[gi] == goal);
            assert(dist@[gi] is Some);
            assert(!pending(frontier@, gi));
        }
    }
    None
}

} // verus!
