use quadtree::{Circle, HermiteGrid, IsoLine, Line, Normal, Point, QuadTree, BISECTION_TOLERANCE, UNIT};

/// The circle of radius one cell centred at (1.5, 1.5) cells.
fn unit_circle() -> Circle {
    Circle::new(Point::new(3 * UNIT / 2, 3 * UNIT / 2), UNIT)
}

/// A field that is negative at every lattice point of a small grid: a circle
/// of radius zero centred far outside it.
fn nowhere() -> Circle {
    Circle::new(Point::new(-10 * UNIT, -10 * UNIT), 0)
}

#[test]
fn test_write_circle_to_grid() {
    let mut grid = HermiteGrid::new(5, 5);
    let circle = unit_circle();
    grid.add_contour(&circle);

    let exp_verts = [
        false, false, false, false, false, false, true, true, false, false, false, true, true,
        false, false, false, false, false, false, false, false, false, false, false, false,
    ];
    for i in 0..25 {
        assert_eq!(grid.vertex_value(i), exp_verts[i], "vertex {}", i);
    }

    let exp_edges = [
        (1, 6),
        (2, 7),
        (5, 6),
        (7, 8),
        (10, 11),
        (12, 13),
        (11, 16),
        (12, 17),
    ];
    for e in exp_edges.iter() {
        assert!(grid.edge(e.0, e.1).is_some(), "missing edge");
    }

    assert_eq!(exp_edges.len() as u64, grid.edge_count());
}

#[test]
fn test_make_quadtree_from_grid() {
    let mut qt = QuadTree::new(4, 4);
    let circle = unit_circle();
    qt.add_contour(&circle);
    qt.build();
}

#[test]
fn edges_are_found_in_either_order() {
    let mut grid = HermiteGrid::new(5, 5);
    grid.add_contour(&unit_circle());
    assert!(grid.edge(6, 1).is_some());
    assert!(grid.edge(16, 11).is_some());
    assert!(grid.edge(6, 7).is_none());
    assert!(grid.edge(0, 1).is_none());
    assert!(grid.edge(4, 5).is_none());
    assert!(grid.edge(1, 100).is_none());
}

#[test]
fn crossings_lie_on_their_edges() {
    let mut grid = HermiteGrid::new(5, 5);
    grid.add_contour(&unit_circle());
    let e = grid.edge(1, 6).unwrap();
    assert_eq!(e.verts, [1, 6]);
    assert_eq!(e.position, Point::new(UNIT, 6300));
    assert_eq!(e.dual_verts.len(), 0);
    let e = grid.edge(5, 6).unwrap();
    assert_eq!(e.position, Point::new(6300, UNIT));
    let e = grid.edge(12, 13).unwrap();
    assert_eq!(e.position, Point::new(22500, 2 * UNIT));
    let e = grid.edge(12, 17).unwrap();
    assert_eq!(e.position, Point::new(2 * UNIT, 22500));
}

#[test]
fn crossing_normal_points_towards_the_centre() {
    let mut grid = HermiteGrid::new(5, 5);
    grid.add_contour(&unit_circle());
    let e = grid.edge(1, 6).unwrap();
    assert_eq!(e.normal, Normal { dx: (14400 - UNIT) as i128, dy: (14400 - 6300) as i128 });
}

#[test]
fn a_second_contour_adds_to_the_occupancy() {
    let mut grid = HermiteGrid::new(5, 5);
    grid.add_contour(&unit_circle());
    let other = Circle::new(Point::new(4 * UNIT, 4 * UNIT), UNIT / 2);
    grid.add_contour(&other);
    assert!(grid.vertex_value(6));
    assert!(grid.vertex_value(24));
    assert!(!grid.vertex_value(23));
    assert!(grid.edge(23, 24).is_some());
    assert!(grid.edge(19, 24).is_some());
    assert!(grid.edge(1, 6).is_some());
    assert_eq!(grid.edge_count(), 10);
}

#[test]
fn vertex_coordinates_round_trip() {
    let grid = HermiteGrid::new(5, 3);
    assert_eq!(grid.vertex_index(0, 0), 0);
    assert_eq!(grid.vertex_index(4, 0), 4);
    assert_eq!(grid.vertex_index(2, 2), 12);
    assert_eq!(grid.vertex_index_to_xy(&12), (2, 2));
    assert_eq!(grid.vertex_index_to_xy(&9), (4, 1));
    assert_eq!(grid.vertex_position(&9), Point::new(4 * UNIT, UNIT));
    assert_eq!(grid.vertex_position(&0), Point::new(0, 0));
}

#[test]
fn a_new_grid_is_empty() {
    let grid = HermiteGrid::new(3, 4);
    assert_eq!(grid.width(), 3);
    assert_eq!(grid.height(), 4);
    assert_eq!(grid.edge_count(), 0);
    for v in 0..12 {
        assert!(!grid.vertex_value(v));
    }
}

#[test]
fn intersection_at_a_zero_endpoint_is_that_endpoint() {
    // A circle of radius one cell centred on lattice point (1, 1): the field
    // is exactly zero at (1, 0).
    let circle = Circle::new(Point::new(UNIT, UNIT), UNIT);
    let grid = HermiteGrid::new(3, 3);
    assert_eq!(circle.sample(Point::new(UNIT, 0)), 0);
    assert_eq!(grid.find_edge_intersection(&1, &4, &circle), Point::new(UNIT, 0));
    assert_eq!(grid.find_edge_intersection(&4, &1, &circle), Point::new(UNIT, 0));
    assert_eq!(grid.find_edge_intersection(&0, &1, &circle), Point::new(UNIT, 0));
}

#[test]
fn intersection_is_within_tolerance_of_the_crossing() {
    let circle = unit_circle();
    let grid = HermiteGrid::new(5, 5);
    let p = grid.find_edge_intersection(&1, &6, &circle);
    assert_ne!(p, Point::new(UNIT, 0));
    assert_eq!(p.x, UNIT);
    // The circle crosses x = 1 at y = 1.5 - sqrt(0.75) cells.
    let exact = (1.5 - 0.75f64.sqrt()) * UNIT as f64;
    assert!((p.y as f64 - exact).abs() <= BISECTION_TOLERANCE as f64);
    let below = Point::new(p.x, p.y - UNIT / 32);
    let above = Point::new(p.x, p.y + UNIT / 32);
    assert!((circle.sample(below) > 0) != (circle.sample(above) > 0));
    // Searching from the other end finds a crossing just as close.
    let q = grid.find_edge_intersection(&6, &1, &circle);
    assert!((q.y as f64 - exact).abs() <= BISECTION_TOLERANCE as f64);
}

#[test]
fn quadtree_sizes() {
    assert!(!QuadTree::is_valid_size(3, 4));
    assert!(!QuadTree::is_valid_size(5, 5));
    assert!(!QuadTree::is_valid_size(4, 8));
    assert!(!QuadTree::is_valid_size(0, 0));
    assert!(!QuadTree::is_valid_size(6, 6));
    assert!(QuadTree::is_valid_size(1, 1));
    assert!(QuadTree::is_valid_size(4, 4));
    assert!(QuadTree::is_valid_size(8, 8));
    assert!(QuadTree::is_valid_size(32768, 32768));
    assert!(!QuadTree::is_valid_size(65536, 65536));
}

#[test]
fn a_new_quadtree_has_a_grid_one_larger() {
    let qt = QuadTree::new(8, 8);
    assert_eq!(qt.size(), 8);
    assert_eq!(qt.grid().width(), 9);
    assert_eq!(qt.grid().height(), 9);
    assert_eq!(qt.root().verts(), [0, 8, 72, 80]);
}

#[test]
fn negative_field_prunes_to_one_leaf() {
    let mut qt = QuadTree::new(4, 4);
    qt.add_contour(&nowhere());
    qt.build();
    let root = qt.root();
    for i in 0..4 {
        assert!(root.child(i).is_none());
    }
    assert_eq!(root.dual_vertex(), None);
    assert_eq!(qt.face_homogeneous_value(root), Some(false));
    assert!(qt.get_contour().is_empty());
}

#[test]
fn negative_field_on_a_single_face() {
    let mut qt = QuadTree::new(1, 1);
    qt.add_contour(&nowhere());
    qt.build();
    assert_eq!(qt.root().dual_vertex(), None);
    assert_eq!(qt.face_homogeneous_value(qt.root()), Some(false));
    assert!(qt.get_contour().is_empty());
}

#[test]
fn field_inside_everywhere_is_homogeneous_too() {
    let mut qt = QuadTree::new(2, 2);
    qt.add_contour(&Circle::new(Point::new(UNIT, UNIT), 10 * UNIT));
    qt.build();
    assert_eq!(qt.face_homogeneous_value(qt.root()), Some(true));
    assert!(qt.get_contour().is_empty());
}

fn circle_tree() -> QuadTree {
    let mut qt = QuadTree::new(4, 4);
    qt.add_contour(&unit_circle());
    qt.build();
    qt
}

fn same_segment(a: (Point, Point), b: (Point, Point)) -> bool {
    a == b || (a.0 == b.1 && a.1 == b.0)
}

#[test]
fn circle_contour_joins_dual_vertices() {
    let qt = circle_tree();
    let segs = qt.get_contour();
    let p = |x: i64, y: i64| Point::new(x, y);
    let expected = [
        (p(7950, 7950), p(6300, 14400)),
        (p(20850, 7950), p(22500, 14400)),
        (p(6300, 14400), p(7950, 20850)),
        (p(22500, 14400), p(20850, 20850)),
        (p(7950, 7950), p(14400, 6300)),
        (p(14400, 6300), p(20850, 7950)),
        (p(7950, 20850), p(14400, 22500)),
        (p(14400, 22500), p(20850, 20850)),
    ];
    assert_eq!(segs.len(), expected.len());
    for e in expected.iter() {
        assert!(segs.iter().any(|s| same_segment(*s, *e)), "missing segment {:?}", e);
    }
}

#[test]
fn each_full_edge_gives_its_segment() {
    let qt = circle_tree();
    let segs = qt.get_contour();
    let grid = qt.grid();
    let mut full = 0;
    for a in 0..25usize {
        for b in [a + 1, a + 5] {
            if let Some(e) = grid.edge(a, b) {
                if e.dual_verts.len() == 2 {
                    full += 1;
                    let s = (e.dual_verts.get(0), e.dual_verts.get(1));
                    assert_eq!(segs.iter().filter(|t| **t == s).count(), 1);
                }
            }
        }
    }
    assert_eq!(full, segs.len());
}

#[test]
fn dual_vertex_is_the_mean_of_crossings() {
    let qt = circle_tree();
    let grid = qt.grid();
    // The face at (0, 0) has crossings on its right edge, (1, 0.65625), and
    // bottom edge, (0.65625, 1).
    let e = grid.edge(1, 6).unwrap();
    assert_eq!(e.dual_verts.get(0), Point::new(7950, 7950));
    // The face at (1, 0) has crossings on its left and right edges.
    assert_eq!(e.dual_verts.get(1), Point::new(14400, 6300));
    let mut node = qt.root();
    node = node.child(0).unwrap();
    let leaf = node.child(0).unwrap();
    assert_eq!(leaf.dual_vertex(), Some(Point::new(7950, 7950)));
    assert_eq!(leaf.verts(), [0, 1, 5, 6]);
}

#[test]
fn border_edges_give_no_segment() {
    // A circle that crosses the grid's border: edges on the border have one
    // adjacent face only.
    let mut qt = QuadTree::new(2, 2);
    qt.add_contour(&Circle::new(Point::new(0, 0), UNIT / 2));
    qt.build();
    let grid = qt.grid();
    let top = grid.edge(0, 1).unwrap();
    assert_eq!(top.dual_verts.len(), 1);
    let left = grid.edge(0, 3).unwrap();
    assert_eq!(left.dual_verts.len(), 1);
    assert!(qt.get_contour().is_empty());
}

#[test]
fn building_twice_gives_the_same_contour() {
    let mut qt = circle_tree();
    let first = qt.get_contour();
    let first_leaf = qt.root().child(0).unwrap().child(0).unwrap().dual_vertex();
    qt.build();
    let second = qt.get_contour();
    let second_leaf = qt.root().child(0).unwrap().child(0).unwrap().dual_vertex();
    assert_eq!(first, second);
    assert_eq!(first_leaf, second_leaf);
    let e = qt.grid().edge(1, 6).unwrap();
    assert_eq!(e.dual_verts.len(), 2);
}

#[test]
fn homogeneous_quadrants_are_pruned() {
    let qt = circle_tree();
    let root = qt.root();
    assert_eq!(qt.face_homogeneous_value(root), None);
    assert_eq!(root.dual_vertex(), None);
    // Every quadrant of the 4 × 4 tree touches the circle.
    for i in 0..4 {
        let q = root.child(i).unwrap();
        assert_eq!(q.dual_vertex(), None);
    }
    // The far corner face of the bottom-right quadrant lies outside.
    let q3 = root.child(3).unwrap();
    assert!(q3.child(3).is_none());
    assert!(q3.child(0).is_some());
}

#[test]
fn circle_sample_and_normal() {
    let c = unit_circle();
    assert_eq!(c.center(), Point::new(14400, 14400));
    assert_eq!(c.radius(), UNIT);
    assert_eq!(c.sample(Point::new(14400, 14400)), (UNIT as i128) * (UNIT as i128));
    assert_eq!(c.sample(Point::new(0, 0)), 9600 * 9600 - 2 * 14400 * 14400);
    assert_eq!(c.normal(Point::new(0, 9600)), Normal { dx: 14400, dy: 4800 });
    // The central difference points the same way as the exact gradient.
    let n = quadtree::estimate_normal(&c, Point::new(0, 9600));
    assert_eq!(n, Normal { dx: 2 * 96 * 2 * 14400, dy: 2 * 96 * 2 * 4800 });
}

#[test]
fn line_lengthsq_is_the_squared_length() {
    let l = Line::new(Point::new(3, 4), Point::new(5, -2));
    assert_eq!(l.points[0], Point::new(3, 4));
    assert_eq!(l.lengthsq(), 40);
    assert_eq!(Line::new(Point::new(0, 0), Point::new(3 * UNIT, 4 * UNIT)).lengthsq(), 25 * 9600 * 9600);
}

#[test]
fn sibling_faces_share_a_value() {
    // Kept children are never homogeneous, so siblings in a built tree share
    // no value: a single face that is not homogeneous gives none.
    let tree = circle_tree();
    let root = tree.root();
    assert_eq!(tree.faces_homogeneous_value(root.children()), None);
    let q3 = root.child(3).unwrap();
    assert!(q3.children()[3].is_none());
    assert_eq!(tree.faces_homogeneous_value(q3.children()), None);
    // A face without children has no present sibling at all.
    let mut outside = QuadTree::new(4, 4);
    outside.add_contour(&nowhere());
    outside.build();
    assert_eq!(outside.faces_homogeneous_value(outside.root().children()), None);
}
