use voronoi_points::edge::{Shape, TrimmedEdge, VoronoiEdge};
use voronoi_points::geometry::{int_dot, Point, Vector};
use voronoi_points::graph::VoronoiGraph;
use voronoi_points::rational::Rational;

fn graph_of(points: &[(i32, i32)]) -> VoronoiGraph {
    let mut graph = VoronoiGraph::new();
    for &(x, y) in points {
        graph.add_source_point(Point::new(x, y));
    }
    graph
}

fn rat(n: i128, d: i128) -> Rational {
    Rational::new(n, d)
}

fn bounds(e: &VoronoiEdge) -> (u32, u32, Option<Rational>, Option<Rational>) {
    (e.points[0], e.points[1], e.min_t, e.max_t)
}

/// An edge as the two sites it separates and its end points (none for an
/// unbounded end), independent of the orientation it was built in.
fn geometric(graph: &VoronoiGraph, e: &VoronoiEdge) -> ((i32, i32), (i32, i32), Vec<Option<(f64, f64)>>) {
    let sites = graph.source_points();
    let a = sites[e.points[0] as usize];
    let b = sites[e.points[1] as usize];
    let at = |t: Option<Rational>| {
        t.map(|t| {
            let v = t.numer as f64 / t.denom as f64;
            (
                e.double_point.x as f64 * 0.5 + v * e.mul_dir.x as f64,
                e.double_point.y as f64 * 0.5 + v * e.mul_dir.y as f64,
            )
        })
    };
    let mut pair = [(a.x, a.y), (b.x, b.y)];
    pair.sort();
    let mut ends = vec![at(e.min_t), at(e.max_t)];
    ends.sort_by(|p, q| p.partial_cmp(q).unwrap());
    (pair[0], pair[1], ends)
}

#[test]
fn test_basic_trim() {
    let p1 = Point::new(-10, 0);
    let p2 = Point::new(0, 0);
    let p3 = Point::new(5, 5);

    let e12 = VoronoiEdge::two_points(&p1, &p2, 1, 2);
    let tr12 = e12.trim(&p3);
    if let TrimmedEdge::Trimmed(te12) = tr12 {
        assert!(te12.min_t.is_some());
        assert!(te12.max_t.is_none());
        let v = te12.min_t.unwrap();
        assert_eq!(v, Rational::new(-1, 1));
    } else {
        assert!(false);
    }
    let e13 = VoronoiEdge::two_points(&p1, &p3, 1, 3);
    let tr13 = e13.trim(&p2);
    if let TrimmedEdge::Trimmed(te13) = tr13 {
        assert!(te13.min_t.is_none());
        assert!(te13.max_t.is_some());
        let v = te13.max_t.unwrap();
        assert_eq!(v, Rational::new(-1, 2));
    } else {
        assert!(false);
    }
    let e23 = VoronoiEdge::two_points(&p2, &p3, 2, 3);
    let tr23 = e23.trim(&p1);
    if let TrimmedEdge::Trimmed(te23) = tr23 {
        assert!(te23.min_t.is_some());
        assert!(te23.max_t.is_none());
        let v = te23.min_t.unwrap();
        assert_eq!(v, Rational::new(-3, 2));
    } else {
        assert!(false);
    }
}

#[test]
fn two_points_give_one_full_bisector() {
    let graph = graph_of(&[(0, 0), (10, 0)]);
    let edges = graph.edges();
    assert_eq!(edges.len(), 1);
    assert_eq!(bounds(&edges[0]), (0, 1, None, None));
    assert_eq!(edges[0].double_point, Point::new(10, 0));
    assert_eq!(edges[0].mul_dir, Vector::new(0, -10));
    assert_eq!(graph.shapes(), vec![Shape::Line]);
}

#[test]
fn three_points_each_edge_one_bound() {
    let graph = graph_of(&[(-10, 0), (0, 0), (5, 5)]);
    let got: Vec<_> = graph.edges().iter().map(bounds).collect();
    assert_eq!(
        got,
        vec![
            (0, 1, Some(rat(-1, 1)), None),
            (0, 2, None, Some(rat(-1, 2))),
            (1, 2, Some(rat(-3, 2)), None),
        ]
    );
    assert_eq!(
        graph.shapes(),
        vec![
            Shape::Forward(rat(-1, 1)),
            Shape::Backward(rat(-1, 2)),
            Shape::Forward(rat(-3, 2)),
        ]
    );
}

#[test]
fn four_points_segments() {
    let graph = graph_of(&[(-10, 0), (0, 0), (5, 5), (100, -100)]);
    let got: Vec<_> = graph.edges().iter().map(bounds).collect();
    assert_eq!(
        got,
        vec![
            (0, 1, Some(rat(-1, 1)), Some(rat(21, 2))),
            (0, 2, None, Some(rat(-1, 2))),
            (1, 2, Some(rat(-3, 2)), Some(rat(10, 1))),
            (0, 3, Some(rat(1, 2)), None),
            (1, 3, Some(rat(-1, 40)), Some(rat(11, 20))),
            (2, 3, None, Some(rat(0, 1))),
        ]
    );
    assert_eq!(graph.shapes()[1], Shape::Backward(rat(-1, 2)));
    assert_eq!(graph.shapes()[4], Shape::Segment(rat(-1, 40), rat(11, 20)));
}

#[test]
fn duplicate_point_does_not_break() {
    let a = Point::new(3, -4);
    let degenerate = VoronoiEdge::two_points(&a, &a, 0, 1);
    for p in [Point::new(3, -4), Point::new(0, 0), Point::new(100, 7), Point::new(-3, 4)] {
        assert!(matches!(degenerate.trim(&p), TrimmedEdge::Filter));
    }
    let graph = graph_of(&[(0, 0), (0, 0)]);
    assert_eq!(graph.edges().len(), 1);
    let graph = graph_of(&[(0, 0), (0, 0), (5, 5)]);
    assert_eq!(graph.source_points().len(), 3);
    assert!(graph.edges().is_empty());
}

#[test]
fn far_point_leaves_triangle_edges() {
    let before = graph_of(&[(-10, 0), (0, 0), (5, 5)]);
    let after = graph_of(&[(-10, 0), (0, 0), (5, 5), (-200, 300)]);
    let b: Vec<_> = before.edges().iter().map(bounds).collect();
    let a: Vec<_> = after.edges().iter().map(bounds).collect();
    assert_eq!(a[0], b[0]);
    assert_eq!(a[2], b[2]);
    assert_eq!(a[1], (0, 2, Some(rat(-2549, 218)), Some(rat(-1, 2))));
    assert_eq!(a[3], (0, 3, None, Some(rat(16, 109))));
    assert_eq!(a[4], (2, 3, Some(rat(27, 218)), None));
    assert_eq!(a.len(), 5);
}

#[test]
fn insertion_order_does_not_matter() {
    let orders: [[(i32, i32); 5]; 3] = [
        [(0, 0), (10, 0), (0, 10), (10, 10), (4, 7)],
        [(10, 10), (4, 7), (0, 10), (10, 0), (0, 0)],
        [(4, 7), (0, 0), (10, 10), (10, 0), (0, 10)],
    ];
    let mut shapes = Vec::new();
    for order in orders.iter() {
        let graph = graph_of(order);
        let mut edges: Vec<_> = graph.edges().iter().map(|e| geometric(&graph, e)).collect();
        edges.sort_by(|p, q| p.partial_cmp(q).unwrap());
        shapes.push(edges);
    }
    assert!(!shapes[0].is_empty());
    assert_eq!(shapes[0], shapes[1]);
    assert_eq!(shapes[0], shapes[2]);
}

#[test]
fn probe_on_the_sites_line() {
    let e = VoronoiEdge::two_points(&Point::new(0, 0), &Point::new(10, 0), 0, 1);
    assert!(matches!(e.trim(&Point::new(12, 0)), TrimmedEdge::Keep));
    assert!(matches!(e.trim(&Point::new(-6, 0)), TrimmedEdge::Keep));
    assert!(matches!(e.trim(&Point::new(8, 0)), TrimmedEdge::Filter));
    assert!(matches!(e.trim(&Point::new(10, 0)), TrimmedEdge::Filter));
    let graph = graph_of(&[(0, 0), (10, 0), (8, 0)]);
    let got: Vec<_> = graph.edges().iter().map(bounds).collect();
    assert_eq!(got, vec![(0, 2, None, None), (1, 2, None, None)]);
}

#[test]
fn cuts_keep_and_filter() {
    let e = VoronoiEdge::two_points(&Point::new(0, 0), &Point::new(10, 0), 0, 1);
    let lower = match e.cut_min(rat(-1, 1)) {
        TrimmedEdge::Trimmed(x) => x,
        _ => panic!("expected a trimmed edge"),
    };
    assert_eq!(lower.min_t, Some(rat(-1, 1)));
    assert!(matches!(lower.cut_min(rat(-2, 1)), TrimmedEdge::Keep));
    assert!(matches!(lower.cut_max(rat(-1, 1)), TrimmedEdge::Filter));
    assert!(matches!(lower.cut_max(rat(-3, 1)), TrimmedEdge::Filter));
    let both = match lower.cut_max(rat(3, 4)) {
        TrimmedEdge::Trimmed(x) => x,
        _ => panic!("expected a trimmed edge"),
    };
    assert_eq!((both.min_t, both.max_t), (Some(rat(-1, 1)), Some(rat(3, 4))));
    assert!(matches!(both.cut_max(rat(1, 1)), TrimmedEdge::Keep));
    assert!(matches!(both.cut_min(rat(3, 4)), TrimmedEdge::Filter));
    assert_eq!(both.shape(), Shape::Segment(rat(-1, 1), rat(3, 4)));
}

#[test]
fn trim_points_skips_own_sites() {
    let sites = vec![Point::new(-10, 0), Point::new(0, 0), Point::new(5, 5)];
    let e = VoronoiEdge::two_points(&sites[0], &sites[1], 0, 1);
    let t = e.trim_points(&sites).unwrap();
    assert_eq!((t.min_t, t.max_t), (Some(rat(-1, 1)), None));
    let d = VoronoiEdge::two_points(&sites[0], &sites[0], 0, 0);
    assert!(d.trim_points(&sites).is_none());
    let alone = vec![Point::new(1, 1)];
    let d = VoronoiEdge::two_points(&alone[0], &alone[0], 0, 1);
    assert!(d.trim_points(&alone).is_some());
    let d = VoronoiEdge::two_points(&sites[2], &sites[2], 2, 2);
    assert!(d.trim_points(&sites).is_none());
}

#[test]
fn rationals_reduce_and_compare() {
    let r = Rational::new(40000, -40000);
    assert_eq!((r.numer, r.denom), (-1, 1));
    let r = Rational::new(-50000, 100000);
    assert_eq!((r.numer, r.denom), (-1, 2));
    let r = Rational::new(0, -7);
    assert_eq!((r.numer, r.denom), (0, 1));
    let r = Rational::new(6, 4);
    assert_eq!((r.numer, r.denom), (3, 2));
    assert_eq!(rat(1, 3).compare(&rat(1, 2)), std::cmp::Ordering::Less);
    assert_eq!(rat(2, 4).compare(&rat(1, 2)), std::cmp::Ordering::Equal);
    assert_eq!(rat(-1, 2).compare(&rat(-2, 3)), std::cmp::Ordering::Greater);
}

#[test]
fn dot_products_and_from_points() {
    assert_eq!(int_dot(Vector::new(3, -4), Vector::new(5, 6)), -9);
    assert_eq!(
        int_dot(Vector::new(i32::MIN, i32::MIN), Vector::new(i32::MIN, i32::MIN)),
        2 * (1i128 << 62)
    );
    let points = vec![Point::new(-10, 0), Point::new(0, 0), Point::new(5, 5)];
    let g = VoronoiGraph::from_points(&points);
    assert_eq!(g.source_points(), &points);
    assert_eq!(g.edges().len(), 3);
    assert!(VoronoiGraph::new().edges().is_empty());
}
