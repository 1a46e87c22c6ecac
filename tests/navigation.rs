use walknav::pathfinding::{astar, Graph};
use walknav::point::{point, Point};
use walknav::polygon::Polygon;
use walknav::segment::line_segment;
use walknav::walkbox::WalkBox;

fn p(x: i32, y: i32) -> Point {
    point(x, y)
}

fn make_graph() -> WalkBox {
    WalkBox::new(
        Polygon::new(vec![
            p(60, 60),
            p(300, 60),
            p(300, 240),
            p(360, 240),
            p(360, 60),
            p(610, 60),
            p(610, 260),
            p(510, 260),
            p(510, 280),
            p(610, 280),
            p(610, 435),
            p(60, 435),
            p(60, 60),
        ]),
        vec![],
    )
}

fn l_shape() -> WalkBox {
    WalkBox::new(
        Polygon::new(vec![
            p(60, 60),
            p(300, 60),
            p(300, 240),
            p(360, 240),
            p(360, 60),
            p(610, 60),
            p(610, 435),
            p(60, 435),
        ]),
        vec![],
    )
}

fn rectangle() -> WalkBox {
    WalkBox::new(Polygon::new(vec![p(0, 0), p(100, 0), p(100, 40), p(0, 40)]), vec![])
}

#[test]
fn walkbox_test_walkable_edges() {
    let graph = make_graph();
    let we = graph.walkable_edges();
    assert!(we.first().is_some());
}

#[test]
fn walkbox_test_temp_edges() {
    let mut graph = make_graph();
    let start = p(75, 75);
    let end = p(570, 80);
    graph.add_temporary_edges(start, end);
    assert_eq!(graph.temp_edges.len(), 3);
}

#[test]
fn walkbox_test_neighbours() {
    let mut graph = make_graph();
    let start = p(75, 75);
    let end = p(570, 80);
    graph.add_temporary_edges(start, end);
    let n = graph.neighbours(start);
    assert!(n.first().is_some());
    let n = graph.neighbours(end);
    assert!(n.first().is_none());
}

#[test]
fn test_astar() {
    let mut graph = make_graph();

    let start = p(150, 150);
    let end = p(570, 120);
    graph.add_temporary_edges(start, end);
    let path = astar(&graph, start, end);
    assert!(path.is_some());

    let start = p(600, 290);
    let end = p(600, 190);
    graph.add_temporary_edges(start, end);
    let path = astar(&graph, start, end);
    assert!(path.is_some());
}

#[test]
fn corners_of_the_notched_region() {
    let wb = make_graph();
    assert_eq!(wb.concave_vertices, vec![p(300, 240), p(360, 240), p(510, 260), p(510, 280)]);
    assert_eq!(wb.edges.len(), 13);
    assert_eq!((wb.xmin, wb.xmax, wb.ymin, wb.ymax), (60, 610, 60, 435));
}

#[test]
fn static_graph_has_no_duplicates_and_no_crossings() {
    let wb = make_graph();
    for (i, e) in wb.graph_edges.iter().enumerate() {
        assert_ne!(e.start, e.end);
        for b in wb.edges.iter() {
            assert!(!e.crosses(b));
        }
        for f in wb.graph_edges[i + 1..].iter() {
            assert_ne!(e, f);
        }
    }
    // both directions between the two corners of the inner wall
    assert!(wb.graph_edges.contains(&line_segment(p(300, 240), p(360, 240))));
    assert!(wb.graph_edges.contains(&line_segment(p(360, 240), p(300, 240))));
}

#[test]
fn rectangle_contains_its_centre() {
    let wb = rectangle();
    assert!(wb.contains(p(50, 20)));
    assert!(!wb.contains(p(-1, 20)));
    assert!(!wb.contains(p(50, 41)));
    assert!(!wb.contains(p(101, -3)));
    assert!(!wb.contains(p(0, 20)));
}

#[test]
fn hole_is_outside_the_region() {
    let hole = Polygon::new(vec![p(40, 10), p(60, 10), p(60, 30), p(40, 30)]);
    let wb = WalkBox::new(Polygon::new(vec![p(0, 0), p(100, 0), p(100, 40), p(0, 40)]), vec![hole]);
    assert!(!wb.contains(p(50, 20)));
    assert!(wb.contains(p(20, 20)));
    assert!(wb.contains(p(80, 20)));
    assert_eq!(wb.concave_vertices.len(), 4);
}

#[test]
fn path_around_an_obstacle() {
    let hole = Polygon::new(vec![p(40, 10), p(60, 10), p(60, 30), p(40, 30)]);
    let mut wb = WalkBox::new(Polygon::new(vec![p(0, 0), p(100, 0), p(100, 40), p(0, 40)]), vec![hole]);
    let path = wb.compute_path(p(20, 20), p(80, 20)).expect("a path exists");
    let pts = path.points().clone();
    assert_eq!(pts.first(), Some(&p(20, 20)));
    assert_eq!(pts.last(), Some(&p(80, 20)));
    assert!(pts.len() >= 3);
    for l in path.lines() {
        for e in wb.edges.iter() {
            assert!(!l.crosses(e));
        }
    }
}

#[test]
fn straight_corridor_gives_the_direct_path() {
    let mut wb = rectangle();
    let path = wb.compute_path(p(10, 20), p(90, 20)).expect("a path exists");
    assert_eq!(path.points().clone(), vec![p(10, 20), p(90, 20)]);
    assert_eq!(path.lines(), vec![line_segment(p(10, 20), p(90, 20))]);
}

#[test]
fn temporary_edges_twice_keep_the_same_count() {
    let mut wb = make_graph();
    wb.add_temporary_edges(p(75, 75), p(570, 80));
    let once = wb.walkable_edges().len();
    wb.add_temporary_edges(p(75, 75), p(570, 80));
    assert_eq!(wb.walkable_edges().len(), once);
}

#[test]
fn l_shaped_region_routes_round_the_inner_corner() {
    let mut wb = l_shape();
    let start = p(150, 150);
    let goal = p(570, 120);
    let path = wb.compute_path(start, goal).expect("a path exists");
    let pts = path.points().clone();
    assert_eq!(pts[0], start);
    assert_eq!(*pts.last().unwrap(), goal);
    assert!(pts.len() >= 3);
    for q in &pts[1..pts.len() - 1] {
        assert!(*q == p(300, 240) || *q == p(360, 240));
    }
    for l in path.lines() {
        for e in wb.edges.iter() {
            assert!(!l.crosses(e));
        }
    }
}

#[test]
fn unreachable_goal_gives_no_path() {
    let mut wb = l_shape();
    let path = wb.compute_path(p(0, 100), p(700, 100));
    assert!(path.is_none());
}

#[test]
fn clamp_keeps_inside_points_and_snaps_outside_ones() {
    let wb = rectangle();
    assert_eq!(wb.clamp_destination(p(30, 30)), p(30, 30));
    assert_eq!(wb.clamp_destination(p(30, 55)), p(30, 40));
    assert_eq!(wb.clamp_destination(p(-20, 10)), p(0, 10));
    assert_eq!(wb.clamp_destination(p(130, 70)), p(100, 40));
}

#[test]
fn navigate_clamps_the_pointer() {
    let mut wb = rectangle();
    let path = wb.navigate(p(10, 20), p(50, 80)).expect("a path exists");
    assert_eq!(path.end, p(50, 40));
    assert_eq!(path.points().clone(), vec![p(10, 20), p(50, 40)]);
}

#[test]
fn pointer_outside_gets_no_corner_edges() {
    let mut wb = l_shape();
    wb.add_temporary_edges(p(150, 150), p(700, 100));
    for e in wb.temp_edges.iter() {
        assert_eq!(e.start, p(150, 150));
    }
}

#[test]
fn search_from_goal_itself() {
    let mut wb = l_shape();
    let path = wb.compute_path(p(100, 100), p(100, 100)).expect("a path exists");
    assert_eq!(path.points().clone(), vec![p(100, 100)]);
}
