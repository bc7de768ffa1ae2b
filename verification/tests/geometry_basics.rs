use map_model::geometry::{
    dist_sq, nearest_on_seg, point_in_polygon, seg_intersection, segs_cross, Polygon, Pt,
};

fn pt(x: i64, y: i64) -> Pt {
    Pt { x, y }
}

fn square(x0: i64, y0: i64, x1: i64, y1: i64) -> Polygon {
    Polygon { pts: vec![pt(x0, y0), pt(x1, y0), pt(x1, y1), pt(x0, y1)] }
}

#[test]
fn dist_sq_exact() {
    assert_eq!(dist_sq(pt(0, 0), pt(3, 4)), 25);
    assert_eq!(dist_sq(pt(-3, -4), pt(0, 0)), 25);
    assert_eq!(dist_sq(pt(7, 7), pt(7, 7)), 0);
}

#[test]
fn point_in_polygon_basic() {
    let sq = square(0, 0, 10, 10);
    assert!(point_in_polygon(&sq, pt(5, 5)));
    assert!(!point_in_polygon(&sq, pt(15, 5)));
    assert!(!point_in_polygon(&sq, pt(5, -5)));
    assert!(!point_in_polygon(&sq, pt(-1, 11)));
}

#[test]
fn point_in_concave_polygon() {
    // a U shape: the notch between the arms is outside
    let u = Polygon {
        pts: vec![
            pt(0, 0),
            pt(30, 0),
            pt(30, 20),
            pt(20, 20),
            pt(20, 10),
            pt(10, 10),
            pt(10, 20),
            pt(0, 20),
        ],
    };
    assert!(point_in_polygon(&u, pt(5, 15)));
    assert!(point_in_polygon(&u, pt(25, 15)));
    assert!(point_in_polygon(&u, pt(15, 5)));
    assert!(!point_in_polygon(&u, pt(15, 15)));
}

#[test]
fn nearest_on_seg_projects_and_clamps() {
    assert_eq!(nearest_on_seg(pt(5, 5), pt(0, 0), pt(10, 0)), pt(5, 0));
    assert_eq!(nearest_on_seg(pt(-5, 5), pt(0, 0), pt(10, 0)), pt(0, 0));
    assert_eq!(nearest_on_seg(pt(15, -5), pt(0, 0), pt(10, 0)), pt(10, 0));
    // degenerate segment
    assert_eq!(nearest_on_seg(pt(3, 3), pt(1, 1), pt(1, 1)), pt(1, 1));
}

#[test]
fn segs_cross_is_proper_crossing_only() {
    assert!(segs_cross(pt(0, -10), pt(0, 10), pt(-10, 0), pt(10, 0)));
    // disjoint
    assert!(!segs_cross(pt(0, 0), pt(10, 0), pt(0, 5), pt(10, 5)));
    // touching at an endpoint is not a proper crossing
    assert!(!segs_cross(pt(0, 0), pt(10, 0), pt(10, 0), pt(10, 10)));
    // collinear overlap is not a proper crossing
    assert!(!segs_cross(pt(0, 0), pt(10, 0), pt(5, 0), pt(15, 0)));
}

#[test]
fn seg_intersection_exact() {
    assert_eq!(
        seg_intersection(pt(0, -10), pt(0, 10), pt(-10, 0), pt(10, 0)),
        pt(0, 0)
    );
    assert_eq!(
        seg_intersection(pt(0, 0), pt(50, 0), pt(10, -10), pt(10, 10)),
        pt(10, 0)
    );
}
