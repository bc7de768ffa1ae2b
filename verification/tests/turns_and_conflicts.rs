use map_model::geometry::Pt;
use map_model::lanes::LaneType;
use map_model::turns::{
    conflict_graph, make_all_turns, ApproachLane, Connector, Turn, TurnRestriction, TurnType,
};

fn pt(x: i64, y: i64) -> Pt {
    Pt { x, y }
}

fn lane(
    lane_id: u64,
    road_id: u64,
    inbound: bool,
    endpoint: Pt,
    bearing: Pt,
) -> ApproachLane {
    ApproachLane { lane_id, road_id, lane_type: LaneType::Driving, inbound, endpoint, bearing }
}

/// A 4-way intersection: one-way arms from north and south (both carrying
/// southbound traffic), two-way arms from east and west.
fn four_way() -> Vec<ApproachLane> {
    vec![
        // north arm, one-way southbound: enters the intersection
        lane(10, 1, true, pt(0, 10), pt(0, -1)),
        // south arm, one-way southbound: leaves the intersection
        lane(21, 2, false, pt(0, -10), pt(0, -1)),
        // east arm, two-way
        lane(30, 3, true, pt(10, 1), pt(-1, 0)),
        lane(31, 3, false, pt(10, -1), pt(1, 0)),
        // west arm, two-way
        lane(40, 4, true, pt(-10, -1), pt(1, 0)),
        lane(41, 4, false, pt(-10, 1), pt(-1, 0)),
    ]
}

fn find<'a>(turns: &'a [Turn], src: u64, dst: u64) -> Option<&'a Turn> {
    turns.iter().find(|t| t.src == src && t.dst == dst)
}

#[test]
fn four_way_excludes_wrong_way_movements() {
    let turns = make_all_turns(&four_way(), &vec![]);
    // nothing may flow against the one-way arms
    assert!(turns.iter().all(|t| t.dst != 10), "north inbound lane used as destination");
    assert!(turns.iter().all(|t| t.src != 21), "south outbound lane used as source");
    // inbound lanes are never destinations, outbound never sources
    assert!(turns.iter().all(|t| t.dst != 30 && t.dst != 40));
    assert!(turns.iter().all(|t| t.src != 31 && t.src != 41));
}

#[test]
fn four_way_north_to_south_is_straight() {
    let turns = make_all_turns(&four_way(), &vec![]);
    let t = find(&turns, 10, 21).expect("north through-movement missing");
    assert_eq!(t.turn_type, TurnType::Straight);
}

#[test]
fn four_way_classifies_left_and_right() {
    let turns = make_all_turns(&four_way(), &vec![]);
    // southbound traffic turning to head east bends left, to head west right
    assert_eq!(find(&turns, 10, 31).unwrap().turn_type, TurnType::Left);
    assert_eq!(find(&turns, 10, 41).unwrap().turn_type, TurnType::Right);
    // eastbound traffic from the west arm going straight on
    assert_eq!(find(&turns, 40, 31).unwrap().turn_type, TurnType::Straight);
}

#[test]
fn mirroring_swaps_left_and_right() {
    let mirrored: Vec<ApproachLane> = four_way()
        .into_iter()
        .map(|l| ApproachLane {
            endpoint: pt(-l.endpoint.x, l.endpoint.y),
            bearing: pt(-l.bearing.x, l.bearing.y),
            ..l
        })
        .collect();
    let turns = make_all_turns(&four_way(), &vec![]);
    let m = make_all_turns(&mirrored, &vec![]);
    for t in &turns {
        let mt = find(&m, t.src, t.dst).expect("mirrored turn missing");
        let expect = match t.turn_type {
            TurnType::Left => TurnType::Right,
            TurnType::Right => TurnType::Left,
            other => other,
        };
        assert_eq!(mt.turn_type, expect);
    }
}

#[test]
fn restriction_removes_movement() {
    let restr = vec![TurnRestriction { from_road: 1, to_road: 2 }];
    let turns = make_all_turns(&four_way(), &restr);
    assert!(find(&turns, 10, 21).is_none());
    // unrelated movements survive
    assert!(find(&turns, 10, 31).is_some());
}

#[test]
fn dead_end_produces_u_turn() {
    let lanes = vec![
        lane(1, 7, true, pt(0, 1), pt(-1, 0)),
        lane(2, 7, false, pt(0, -1), pt(1, 0)),
    ];
    let turns = make_all_turns(&lanes, &vec![]);
    assert_eq!(turns.len(), 1);
    assert_eq!(turns[0].src, 1);
    assert_eq!(turns[0].dst, 2);
    assert_eq!(turns[0].turn_type, TurnType::UTurn);
}

#[test]
fn same_road_pair_skipped_when_not_dead_end() {
    let mut lanes = four_way();
    // an outbound partner on the north road: same-road movement stays banned
    lanes.push(lane(11, 1, false, pt(1, 10), pt(0, 1)));
    let turns = make_all_turns(&lanes, &vec![]);
    assert!(find(&turns, 10, 11).is_none());
}

#[test]
fn aliased_lane_records_collapse_to_one_turn() {
    let mut lanes = four_way();
    let dup = lanes[0];
    lanes.push(dup);
    let turns = make_all_turns(&lanes, &vec![]);
    for a in 0..turns.len() {
        for b in (a + 1)..turns.len() {
            assert!(
                !(turns[a].src == turns[b].src && turns[a].dst == turns[b].dst),
                "duplicate (source, destination) pair"
            );
        }
    }
}

fn classify_pair(vin: Pt, vout: Pt) -> TurnType {
    let lanes = vec![
        lane(1, 1, true, pt(0, 0), vin),
        lane(2, 2, false, pt(1, 1), vout),
    ];
    let turns = make_all_turns(&lanes, &vec![]);
    assert_eq!(turns.len(), 1);
    turns[0].turn_type
}

#[test]
fn classification_thresholds() {
    // dead ahead and up to half a right angle off: straight
    assert_eq!(classify_pair(pt(1, 0), pt(1, 0)), TurnType::Straight);
    assert_eq!(classify_pair(pt(1, 0), pt(1, 1)), TurnType::Straight);
    assert_eq!(classify_pair(pt(1, 0), pt(1, -1)), TurnType::Straight);
    // past the threshold the sign decides
    assert_eq!(classify_pair(pt(1, 0), pt(1, 2)), TurnType::Left);
    assert_eq!(classify_pair(pt(1, 0), pt(1, -2)), TurnType::Right);
    assert_eq!(classify_pair(pt(1, 0), pt(0, 1)), TurnType::Left);
    assert_eq!(classify_pair(pt(1, 0), pt(0, -1)), TurnType::Right);
}

#[test]
fn crossing_connectors_conflict_symmetrically() {
    let north_south = Turn {
        src: 10,
        dst: 21,
        turn_type: TurnType::Straight,
        path: Connector { from: pt(0, 10), to: pt(0, -10) },
    };
    let west_east = Turn {
        src: 40,
        dst: 31,
        turn_type: TurnType::Straight,
        path: Connector { from: pt(-10, 0), to: pt(10, 0) },
    };
    let turns = vec![north_south, west_east];
    let g = conflict_graph(&turns);
    assert_eq!(g.len(), 2);
    assert_eq!(g[0], vec![1]);
    assert_eq!(g[1], vec![0]);
}

#[test]
fn shared_source_never_conflicts() {
    let a = Turn {
        src: 10,
        dst: 21,
        turn_type: TurnType::Straight,
        path: Connector { from: pt(0, 10), to: pt(0, -10) },
    };
    let b = Turn {
        src: 10,
        dst: 31,
        turn_type: TurnType::Left,
        path: Connector { from: pt(-1, 5), to: pt(10, -5) },
    };
    let g = conflict_graph(&vec![a, b]);
    assert!(g[0].is_empty());
    assert!(g[1].is_empty());
}
