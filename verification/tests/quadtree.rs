// Scenario tests for the quadtree: construction, aggregation, subdivision,
// root expansion and the threshold-gated query.

use barnes_hut::geom::Vec2i;
use barnes_hut::tree::QuadTree;

fn v(x: i64, y: i64) -> Vec2i {
    Vec2i { x, y }
}

#[test]
fn two_point_aggregate() {
    // insert (1,1) mass 1 and (-1,-1) mass 3: total mass 4, center of
    // mass (-1/2, -1/2), held exactly as weighted sums (-2, -2) over 4
    let mut t = QuadTree::new(v(0, 0), 10);
    t.add_node(v(1, 1), 1);
    t.add_node(v(-1, -1), 3);
    let root = t.vec[t.root];
    assert_eq!(root.mass, 4);
    assert_eq!(root.com_x, -2);
    assert_eq!(root.com_y, -2);
}

#[test]
fn exact_query_returns_each_point() {
    let mut t = QuadTree::new(v(0, 0), 10);
    t.add_node(v(1, 1), 1);
    t.add_node(v(-1, -1), 3);
    t.add_node(v(1, -1), 2);
    let bodies = t.collect_bodies(v(7, 7), 0);
    assert_eq!(bodies.len(), 3);
    let total: u64 = bodies.iter().map(|b| b.mass).sum();
    assert_eq!(total, 6);
    let mut seen: Vec<(i64, i64, u64)> = bodies
        .iter()
        .map(|b| (b.pos.x, b.pos.y, b.mass))
        .collect();
    seen.sort();
    assert_eq!(seen, vec![(-1, -1, 3), (1, -1, 2), (1, 1, 1)]);
    for b in &bodies {
        assert!(b.is_leaf());
    }
}

#[test]
fn quadrant_split_promotes_leaf() {
    // (9,9) falls in the same root quadrant as (1,1): the original leaf
    // is promoted and both points stay retrievable as distinct leaves
    let mut t = QuadTree::new(v(0, 0), 10);
    t.add_node(v(1, 1), 1);
    t.add_node(v(-1, -1), 3);
    t.add_node(v(9, 9), 5);
    let bodies = t.collect_bodies(v(9, 9), 0);
    assert_eq!(bodies.len(), 3);
    let mut seen: Vec<(i64, i64, u64)> = bodies
        .iter()
        .map(|b| (b.pos.x, b.pos.y, b.mass))
        .collect();
    seen.sort();
    assert_eq!(seen, vec![(-1, -1, 3), (1, 1, 1), (9, 9, 5)]);
}

#[test]
fn large_threshold_returns_single_root() {
    let mut t = QuadTree::new(v(0, 0), 10);
    t.add_node(v(1, 1), 1);
    t.add_node(v(-1, -1), 3);
    let bodies = t.collect_bodies(v(1000, 1000), 1_000_000_000);
    assert_eq!(bodies.len(), 1);
    assert_eq!(bodies[0].mass, 4);
}

#[test]
fn expansion_grows_square_bounds_and_keeps_mass() {
    let mut t = QuadTree::new(v(0, 0), 1);
    t.add_node(v(0, 0), 7);
    t.add_node(v(5, 5), 2);
    // bounds doubled away from the point and stayed square
    let w = t.bounds[1].x - t.bounds[0].x;
    let h = t.bounds[1].y - t.bounds[0].y;
    assert_eq!(w, h);
    assert!(w >= 4);
    let root = t.vec[t.root];
    assert_eq!(root.mass, 9);
    assert_eq!(root.com_x, 10);
    assert_eq!(root.com_y, 10);
}

#[test]
fn fractional_threshold_aggregates_distant_root() {
    // the threshold counts thousandths: 500 is the classic ratio 0.5;
    // from far away the whole tree aggregates into its root
    let mut t = QuadTree::new(v(0, 0), 10);
    t.add_node(v(1, 1), 1);
    t.add_node(v(-1, -1), 3);
    let bodies = t.collect_bodies(v(1000, 1000), 500);
    assert_eq!(bodies.len(), 1);
    assert_eq!(bodies[0].mass, 4);
}

#[test]
fn zero_mass_tree_query_returns_one_leaf() {
    // a query before any insertion is a usage error, rejected at the API
    // boundary; after a zero-mass insertion it is legal and returns that
    // point's leaf
    let mut t = QuadTree::new(v(0, 0), 10);
    t.add_node(v(3, 3), 0);
    let bodies = t.collect_bodies(v(3, 3), 0);
    assert_eq!(bodies.len(), 1);
    assert_eq!(bodies[0].mass, 0);
    assert_eq!(bodies[0].pos.x, 3);
    assert_eq!(bodies[0].pos.y, 3);
}

#[test]
fn zero_mass_insertion_contributes_nothing() {
    let mut t = QuadTree::new(v(0, 0), 10);
    t.add_node(v(2, 3), 0);
    t.add_node(v(-4, 1), 6);
    let root = t.vec[t.root];
    assert_eq!(root.mass, 6);
    assert_eq!(root.com_x, -24);
    assert_eq!(root.com_y, 6);
}

#[test]
fn bounds_stay_square_through_inserts() {
    let mut t = QuadTree::new(v(3, -3), 8);
    let pts = [(1, 1, 2u64), (-20, 4, 3), (7, -9, 1), (40, 40, 5)];
    for (x, y, m) in pts {
        t.add_node(v(x, y), m);
        let w = t.bounds[1].x - t.bounds[0].x;
        let h = t.bounds[1].y - t.bounds[0].y;
        assert_eq!(w, h);
    }
    assert_eq!(t.vec[t.root].mass, 11);
}
