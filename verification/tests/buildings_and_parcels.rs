use map_model::buildings::{make_building, BuildingLane, Placement};
use map_model::geometry::{Pt, Polygon};
use map_model::lanes::LaneType;
use map_model::parcels::group_parcels;

fn pt(x: i64, y: i64) -> Pt {
    Pt { x, y }
}

fn square(x0: i64, y0: i64, x1: i64, y1: i64) -> Polygon {
    Polygon { pts: vec![pt(x0, y0), pt(x1, y0), pt(x1, y1), pt(x0, y1)] }
}

fn lane(lane_id: u64, lane_type: LaneType, pts: Vec<Pt>) -> BuildingLane {
    BuildingLane { lane_id, lane_type, pts }
}

#[test]
fn far_building_stays_unconnected() {
    // the nearest sidewalk is 500 units away; the search radius is 100
    let footprint = square(-10, 490, 10, 510);
    let lanes = vec![lane(1, LaneType::Sidewalk, vec![pt(-100, 0), pt(100, 0)])];
    let r = make_building(&footprint, &lanes, 100, &vec![]);
    assert_eq!(r, Placement::Unconnected);
}

#[test]
fn near_building_connects_to_sidewalk() {
    let footprint = square(-10, 30, 10, 50);
    let lanes = vec![lane(1, LaneType::Sidewalk, vec![pt(-100, 0), pt(100, 0)])];
    let r = make_building(&footprint, &lanes, 100, &vec![]);
    match r {
        Placement::Connected(c) => {
            assert_eq!(c.lane_id, 1);
            // centroid (0, 40) projects straight down onto the lane
            assert_eq!(c.lane_point, pt(0, 0));
            // the nearest footprint vertex to that point
            assert_eq!(c.building_point, pt(-10, 30));
        }
        Placement::Unconnected => panic!("expected a connection"),
    }
}

#[test]
fn sidewalk_preferred_over_closer_driving_lane() {
    let footprint = square(-5, -5, 5, 5);
    let lanes = vec![
        lane(1, LaneType::Driving, vec![pt(-50, 8), pt(50, 8)]),
        lane(2, LaneType::Sidewalk, vec![pt(-50, 40), pt(50, 40)]),
    ];
    let r = make_building(&footprint, &lanes, 100, &vec![]);
    match r {
        Placement::Connected(c) => assert_eq!(c.lane_id, 2),
        Placement::Unconnected => panic!("expected a connection"),
    }
}

#[test]
fn driving_lane_is_the_fallback() {
    let footprint = square(-5, -5, 5, 5);
    let lanes = vec![lane(1, LaneType::Driving, vec![pt(-50, 8), pt(50, 8)])];
    let r = make_building(&footprint, &lanes, 100, &vec![]);
    match r {
        Placement::Connected(c) => assert_eq!(c.lane_id, 1),
        Placement::Unconnected => panic!("expected a connection"),
    }
}

#[test]
fn blocked_path_falls_back_to_next_candidate() {
    let footprint = square(-5, -5, 5, 5);
    let lanes = vec![
        lane(1, LaneType::Sidewalk, vec![pt(-50, 20), pt(50, 20)]),
        lane(2, LaneType::Sidewalk, vec![pt(-50, -40), pt(50, -40)]),
    ];
    // another building sits between the footprint and the nearer sidewalk
    let obstacle = square(-20, 8, 20, 12);
    let r = make_building(&footprint, &lanes, 100, &vec![obstacle]);
    match r {
        Placement::Connected(c) => assert_eq!(c.lane_id, 2),
        Placement::Unconnected => panic!("expected a connection"),
    }
}

#[test]
fn parking_lane_never_connects() {
    let footprint = square(-5, -5, 5, 5);
    let lanes = vec![lane(1, LaneType::Parking, vec![pt(-50, 8), pt(50, 8)])];
    let r = make_building(&footprint, &lanes, 100, &vec![]);
    assert_eq!(r, Placement::Unconnected);
}

#[test]
fn shared_edge_parcels_share_a_block() {
    // two parcels share the boundary edge at x = 10; the third sits apart
    let parcels = vec![
        square(0, 0, 10, 10),
        square(10, 0, 20, 10),
        square(100, 100, 110, 110),
    ];
    let blocks = group_parcels(&parcels, 0);
    assert_eq!(blocks, vec![0, 0, 2]);
}

#[test]
fn adjacency_chains_join_one_block() {
    let parcels = vec![
        square(0, 0, 10, 10),
        square(10, 0, 20, 10),
        square(20, 0, 30, 10),
    ];
    let blocks = group_parcels(&parcels, 0);
    assert_eq!(blocks, vec![0, 0, 0]);
}

#[test]
fn tolerance_bridges_small_gaps() {
    // a 4-unit gap: joined at tolerance 5, separate at tolerance 0
    let parcels = vec![square(0, 0, 10, 10), square(14, 0, 24, 10)];
    assert_eq!(group_parcels(&parcels, 5), vec![0, 0]);
    assert_eq!(group_parcels(&parcels, 0), vec![0, 1]);
}

#[test]
fn block_ids_stable_across_reruns() {
    let parcels = vec![
        square(0, 0, 10, 10),
        square(50, 0, 60, 10),
        square(10, 0, 20, 10),
        square(60, 0, 70, 10),
    ];
    let a = group_parcels(&parcels, 0);
    let b = group_parcels(&parcels, 0);
    assert_eq!(a, b);
    assert_eq!(a, vec![0, 1, 0, 1]);
}
