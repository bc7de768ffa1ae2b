use map_model::MapError;
use map_model::geometry::{Pt, Polygon};
use map_model::lanes::{get_lane_specs, Direction, LaneType, RoadTags};
use map_model::trim::{trim_lines, trim_polyline};

fn pt(x: i64, y: i64) -> Pt {
    Pt { x, y }
}

fn square(x0: i64, y0: i64, x1: i64, y1: i64) -> Polygon {
    Polygon { pts: vec![pt(x0, y0), pt(x1, y0), pt(x1, y1), pt(x0, y1)] }
}

fn default_tags(cross_section: u32) -> RoadTags {
    RoadTags {
        oneway: false,
        driving_fwd: None,
        driving_back: None,
        bike_lanes: false,
        parking_lanes: false,
        bus_lanes: false,
        sidewalks: None,
        cross_section,
    }
}

#[test]
fn lane_specs_default_two_way() {
    // defaults: sidewalks both sides, one driving lane per direction
    let specs = get_lane_specs(&default_tags(1100), 0).unwrap();
    assert_eq!(specs.len(), 4);
    assert_eq!(specs[0].lane_type, LaneType::Sidewalk);
    assert_eq!(specs[0].dir, Direction::Back);
    assert_eq!(specs[0].width, 200);
    assert_eq!(specs[1].lane_type, LaneType::Driving);
    assert_eq!(specs[1].dir, Direction::Back);
    assert_eq!(specs[1].width, 350);
    assert_eq!(specs[2].lane_type, LaneType::Driving);
    assert_eq!(specs[2].dir, Direction::Fwd);
    assert_eq!(specs[2].width, 350);
    assert_eq!(specs[3].lane_type, LaneType::Sidewalk);
    assert_eq!(specs[3].dir, Direction::Fwd);
    assert_eq!(specs[3].width, 200);
    let sum: u64 = specs.iter().map(|s| s.width as u64).sum();
    assert_eq!(sum, 1100);
}

#[test]
fn lane_specs_slack_widens_first_driving_lane() {
    // 100 units of leftover cross-section go to the first driving lane
    let specs = get_lane_specs(&default_tags(1200), 0).unwrap();
    assert_eq!(specs[1].lane_type, LaneType::Driving);
    assert_eq!(specs[1].width, 450);
    let sum: u64 = specs.iter().map(|s| s.width as u64).sum();
    assert_eq!(sum, 1200);
}

#[test]
fn lane_specs_reject_overfull_cross_section() {
    // standard widths sum to 1100; 500 + tolerance 100 is not enough
    let r = get_lane_specs(&default_tags(500), 100);
    assert_eq!(r, Err(MapError::InvalidLaneConfig));
}

#[test]
fn lane_specs_within_tolerance_kept() {
    // 1050 + tolerance 100 >= 1100: accepted, widths stay standard
    let specs = get_lane_specs(&default_tags(1050), 100).unwrap();
    let sum: u64 = specs.iter().map(|s| s.width as u64).sum();
    assert_eq!(sum, 1100);
}

#[test]
fn lane_specs_oneway_all_forward() {
    let mut tags = default_tags(2000);
    tags.oneway = true;
    tags.bike_lanes = true;
    tags.driving_fwd = Some(2);
    let specs = get_lane_specs(&tags, 0).unwrap();
    assert!(specs.iter().all(|s| s.dir == Direction::Fwd));
    assert_eq!(specs.iter().filter(|s| s.lane_type == LaneType::Driving).count(), 2);
    assert_eq!(specs.iter().filter(|s| s.lane_type == LaneType::Biking).count(), 1);
    assert_eq!(specs.iter().filter(|s| s.lane_type == LaneType::Sidewalk).count(), 2);
}

#[test]
fn lane_specs_back_lanes_precede_forward_lanes() {
    let mut tags = default_tags(3000);
    tags.driving_fwd = Some(2);
    tags.driving_back = Some(2);
    tags.parking_lanes = true;
    let specs = get_lane_specs(&tags, 0).unwrap();
    let first_fwd = specs.iter().position(|s| s.dir == Direction::Fwd).unwrap();
    assert!(specs[..first_fwd].iter().all(|s| s.dir == Direction::Back));
    assert!(specs[first_fwd..].iter().all(|s| s.dir == Direction::Fwd));
}

#[test]
fn lane_specs_rerun_is_identical() {
    let mut tags = default_tags(1234);
    tags.bike_lanes = true;
    let a = get_lane_specs(&tags, 50);
    let b = get_lane_specs(&tags, 50);
    assert_eq!(a, b);
}

#[test]
fn trim_cuts_line_at_both_boundaries() {
    let raw = vec![pt(0, 0), pt(50, 0), pt(100, 0)];
    let sb = square(-10, -10, 10, 10);
    let eb = square(90, -10, 110, 10);
    let out = trim_polyline(&raw, &sb, &eb).unwrap();
    assert_eq!(out, vec![pt(10, 0), pt(50, 0), pt(90, 0)]);
}

#[test]
fn trim_short_road_snaps_at_both_ends() {
    // the whole centerline sits inside the start intersection: snap fallback
    let raw = vec![pt(0, 0), pt(100, 0)];
    let sb = square(-10, -10, 200, 10);
    let eb = square(-10, -10, 200, 10);
    let out = trim_polyline(&raw, &sb, &eb).unwrap();
    assert_eq!(out.len(), 2);
    // nearest boundary vertices to the raw endpoints
    assert_eq!(out[0], pt(-10, -10));
    assert_eq!(out[1], pt(200, -10));
}

#[test]
fn trim_degenerate_centerline_is_error() {
    let sb = square(-10, -10, 10, 10);
    let eb = square(90, -10, 110, 10);
    let one = vec![pt(0, 0)];
    assert_eq!(trim_polyline(&one, &sb, &eb), Err(MapError::DegenerateGeometry));
    let same = vec![pt(5, 5), pt(5, 5), pt(5, 5)];
    assert_eq!(trim_polyline(&same, &sb, &eb), Err(MapError::DegenerateGeometry));
}

#[test]
fn trim_lines_yields_one_line_per_lane() {
    let raw = vec![pt(0, 0), pt(50, 0), pt(100, 0)];
    let sb = square(-10, -10, 10, 10);
    let eb = square(90, -10, 110, 10);
    let specs = get_lane_specs(&default_tags(1100), 0).unwrap();
    let lines = trim_lines(&raw, &specs, &sb, &eb).unwrap();
    assert_eq!(lines.len(), 4);
    for line in &lines {
        assert_eq!(*line, vec![pt(10, 0), pt(50, 0), pt(90, 0)]);
    }
}

#[test]
fn trim_lines_propagates_degenerate_error() {
    let sb = square(-10, -10, 10, 10);
    let eb = square(90, -10, 110, 10);
    let specs = get_lane_specs(&default_tags(1100), 0).unwrap();
    let r = trim_lines(&vec![pt(3, 3)], &specs, &sb, &eb);
    assert_eq!(r, Err(MapError::DegenerateGeometry));
}
