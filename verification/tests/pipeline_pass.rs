use map_model::geometry::{Polygon, Pt};
use map_model::lanes::{LaneType, RoadTags};
use map_model::pipeline::{build_roads, build_turns, IntersectionRecord, RoadOutcome, RoadRecord};
use map_model::turns::{ApproachLane, TurnType};
use map_model::MapError;

fn pt(x: i64, y: i64) -> Pt {
    Pt { x, y }
}

fn square(x0: i64, y0: i64, x1: i64, y1: i64) -> Polygon {
    Polygon { pts: vec![pt(x0, y0), pt(x1, y0), pt(x1, y1), pt(x0, y1)] }
}

fn tags(cross_section: u32) -> RoadTags {
    RoadTags {
        oneway: false,
        driving_fwd: None,
        driving_back: None,
        bike_lanes: false,
        parking_lanes: false,
        bus_lanes: false,
        sidewalks: None,
        cross_section,
    }
}

#[test]
fn bad_roads_are_reported_without_stopping_the_pass() {
    let ints = vec![square(-10, -10, 10, 10), square(90, -10, 110, 10)];
    let roads = vec![
        // fits: built
        RoadRecord {
            id: 1,
            tags: tags(1100),
            centerline: vec![pt(0, 0), pt(50, 0), pt(100, 0)],
            start_i: 0,
            end_i: 1,
        },
        // cross-section too narrow for the implied lanes: skipped
        RoadRecord {
            id: 2,
            tags: tags(300),
            centerline: vec![pt(0, 0), pt(100, 0)],
            start_i: 0,
            end_i: 1,
        },
        // zero-length centerline: skipped
        RoadRecord {
            id: 3,
            tags: tags(1100),
            centerline: vec![pt(5, 5), pt(5, 5)],
            start_i: 0,
            end_i: 1,
        },
        // a later good road is still built
        RoadRecord {
            id: 4,
            tags: tags(1200),
            centerline: vec![pt(0, 0), pt(100, 0)],
            start_i: 0,
            end_i: 1,
        },
    ];
    let out = build_roads(&roads, &ints, 0);
    assert_eq!(out.len(), 4);
    match &out[0] {
        RoadOutcome::Built(e) => {
            assert_eq!(e.road, 1);
            assert_eq!(e.specs.len(), 4);
            assert_eq!(e.lines.len(), 4);
            assert_eq!(e.lines[0], vec![pt(10, 0), pt(50, 0), pt(90, 0)]);
        }
        RoadOutcome::Skipped(_) => panic!("road 1 should build"),
    }
    match &out[1] {
        RoadOutcome::Skipped(i) => {
            assert_eq!(i.road, 2);
            assert_eq!(i.error, MapError::InvalidLaneConfig);
        }
        RoadOutcome::Built(_) => panic!("road 2 should be skipped"),
    }
    match &out[2] {
        RoadOutcome::Skipped(i) => {
            assert_eq!(i.road, 3);
            assert_eq!(i.error, MapError::DegenerateGeometry);
        }
        RoadOutcome::Built(_) => panic!("road 3 should be skipped"),
    }
    assert!(matches!(&out[3], RoadOutcome::Built(e) if e.road == 4));
}

#[test]
fn empty_input_builds_an_empty_model() {
    let out = build_roads(&vec![], &vec![], 0);
    assert!(out.is_empty());
}

#[test]
fn turn_stage_covers_every_intersection() {
    let dead_end = IntersectionRecord {
        id: 7,
        lanes: vec![
            ApproachLane {
                lane_id: 1,
                road_id: 1,
                lane_type: LaneType::Driving,
                inbound: true,
                endpoint: pt(0, 1),
                bearing: pt(-1, 0),
            },
            ApproachLane {
                lane_id: 2,
                road_id: 1,
                lane_type: LaneType::Driving,
                inbound: false,
                endpoint: pt(0, -1),
                bearing: pt(1, 0),
            },
        ],
        restrictions: vec![],
    };
    let lonely = IntersectionRecord { id: 8, lanes: vec![], restrictions: vec![] };
    let out = build_turns(&vec![dead_end, lonely]);
    assert_eq!(out.len(), 2);
    assert_eq!(out[0].intersection, 7);
    assert_eq!(out[0].turns.len(), 1);
    assert_eq!(out[0].turns[0].turn_type, TurnType::UTurn);
    assert_eq!(out[0].conflicts, vec![Vec::<usize>::new()]);
    // an intersection with no legal movement is a valid, empty entry
    assert_eq!(out[1].intersection, 8);
    assert!(out[1].turns.is_empty());
}
