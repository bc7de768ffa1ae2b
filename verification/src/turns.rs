//! Enumeration and classification of legal turn movements at one
//! intersection.
//!
//! A candidate is every ordered pair of an inbound and an outbound lane of
//! compatible type; lanes of the same road pair up only at a dead end, where
//! the movement is a u-turn. Tag-declared restrictions remove otherwise
//! legal candidates; absence of a restriction means the turn is legal. The
//! produced set is complete (every legal candidate is represented), sound
//! (nothing else is) and free of duplicate (source, destination) pairs. An
//! empty result is a valid terminal state, not an error.
//!
//! Classification compares the inbound terminal bearing with the outbound
//! initial bearing: within half a right angle of dead ahead is straight,
//! otherwise the sign of the turn decides left against right. The connector
//! path of a turn is the straight segment between the two trim points, and
//! two turns conflict when their connectors cross properly without sharing
//! either end lane.

use vstd::prelude::*;
use crate::geometry::{Pt, pt_ok, segs_cross, segs_cross_spec};
use crate::lanes::LaneType;

verus! {

#[derive(Clone, Copy, PartialEq, Eq, Structural, Debug)]
pub enum TurnType {
    Straight,
    Left,
    Right,
    UTurn,
}

/// One lane as it meets the intersection under consideration.
#[derive(Clone, Copy, PartialEq, Eq, Structural, Debug)]
pub struct ApproachLane {
    pub lane_id: u64,
    pub road_id: u64,
    pub lane_type: LaneType,
    /// Travel along this lane points into the intersection.
    pub inbound: bool,
    /// The trim point where the lane meets the intersection boundary.
    pub endpoint: Pt,
    /// Travel direction at the endpoint: approaching for an inbound lane,
    /// leaving for an outbound one.
    pub bearing: Pt,
}

/// A tag-declared ban of every movement from one road onto another.
#[derive(Clone, Copy, PartialEq, Eq, Structural, Debug)]
pub struct TurnRestriction {
    pub from_road: u64,
    pub to_road: u64,
}

/// The straight connector of one turn, from the source lane's trim point
/// to the destination lane's trim point.
#[derive(Clone, Copy, PartialEq, Eq, Structural, Debug)]
pub struct Connector {
    pub from: Pt,
    pub to: Pt,
}

/// One legal movement: from the end of lane `src` to the start of lane
/// `dst`, along the straight connector `path` between their trim points.
#[derive(Clone, Copy, PartialEq, Eq, Structural, Debug)]
pub struct Turn {
    pub src: u64,
    pub dst: u64,
    pub turn_type: TurnType,
    pub path: Connector,
}

pub open spec fn lanes_ok(s: Seq<ApproachLane>) -> bool {
    forall|i: int|
        0 <= i < s.len() ==> pt_ok((#[trigger] s[i]).endpoint) && pt_ok(s[i].bearing)
}

pub open spec fn cross_of(v: Pt, w: Pt) -> int {
    v.x * w.y - v.y * w.x
}

pub open spec fn dot_of(v: Pt, w: Pt) -> int {
    v.x * w.x + v.y * w.y
}

/// Angle classification of a movement with inbound bearing `vin` and
/// outbound bearing `vout`. Within half a right angle of dead ahead is
/// straight; otherwise a negative-signed turn bends right, the rest left.
/// Same-road movements are u-turns regardless of angle.
pub open spec fn classify_spec(vin: Pt, vout: Pt, same_road: bool) -> TurnType {
    if same_road {
        TurnType::UTurn
    } else {
        let cross = cross_of(vin, vout);
        let dot = dot_of(vin, vout);
        if dot > 0 && -dot <= cross && cross <= dot {
            TurnType::Straight
        } else if cross < 0 {
            TurnType::Right
        } else {
            TurnType::Left
        }
    }
}

/// Lane types pair up only with themselves, and parked traffic never turns.
pub open spec fn types_compatible(a: LaneType, b: LaneType) -> bool {
    a == b && !(a is Parking)
}

/// Some declared restriction bans movements from `from` onto `to`.
pub open spec fn restricted(restr: Seq<TurnRestriction>, from: u64, to: u64) -> bool {
    exists|k: int|
        0 <= k < restr.len() && (#[trigger] restr[k]).from_road == from && restr[k].to_road == to
}

/// Every incident lane belongs to the same road: the intersection is a dead
/// end, where u-turns back onto the road are the only way out.
pub open spec fn dead_end_spec(lanes: Seq<ApproachLane>) -> bool {
    forall|i: int, j: int|
        0 <= i < lanes.len() && 0 <= j < lanes.len() ==> (#[trigger] lanes[i]).road_id
            == (#[trigger] lanes[j]).road_id
}

/// The ordered lane pair `(i, j)` is a legal movement.
pub open spec fn legal_candidate(
    lanes: Seq<ApproachLane>,
    restr: Seq<TurnRestriction>,
    dead_end: bool,
    i: int,
    j: int,
) -> bool {
    &&& 0 <= i < lanes.len()
    &&& 0 <= j < lanes.len()
    &&& lanes[i].inbound
    &&& !lanes[j].inbound
    &&& types_compatible(lanes[i].lane_type, lanes[j].lane_type)
    &&& (lanes[i].road_id != lanes[j].road_id || dead_end)
    &&& !restricted(restr, lanes[i].road_id, lanes[j].road_id)
}

/// The turn generated for the lane pair `(i, j)`.
pub open spec fn turn_of(lanes: Seq<ApproachLane>, i: int, j: int) -> Turn {
    Turn {
        src: lanes[i].lane_id,
        dst: lanes[j].lane_id,
        turn_type: classify_spec(
            lanes[i].bearing,
            lanes[j].bearing,
            lanes[i].road_id == lanes[j].road_id,
        ),
        path: Connector { from: lanes[i].endpoint, to: lanes[j].endpoint },
    }
}

/// Some turn of `out` has this (source, destination) pair.
pub open spec fn has_pair(out: Seq<Turn>, src: u64, dst: u64) -> bool {
    exists|t: int| 0 <= t < out.len() && (#[trigger] out[t]).src == src && out[t].dst == dst
}

/// Every turn of `out` arises from some legal candidate pair.
pub open spec fn sound_turns(
    lanes: Seq<ApproachLane>,
    restr: Seq<TurnRestriction>,
    dead_end: bool,
    out: Seq<Turn>,
) -> bool {
    forall|t: int|
        0 <= t < out.len() ==> exists|i: int, j: int|
            legal_candidate(lanes, restr, dead_end, i, j) && #[trigger] out[t] == turn_of(
                lanes,
                i,
                j,
            )
}

/// No two turns of `out` share a (source, destination) pair.
pub open spec fn no_dup_pairs(out: Seq<Turn>) -> bool {
    forall|t1: int, t2: int|
        0 <= t1 < t2 < out.len() ==> !((#[trigger] out[t1]).src == (#[trigger] out[t2]).src
            && out[t1].dst == out[t2].dst)
}

/// Every legal candidate pair is represented in `out`.
pub open spec fn complete_turns(
    lanes: Seq<ApproachLane>,
    restr: Seq<TurnRestriction>,
    dead_end: bool,
    out: Seq<Turn>,
) -> bool {
    forall|i: int, j: int|
        legal_candidate(lanes, restr, dead_end, i, j) ==> has_pair(
            out,
            (#[trigger] lanes[i]).lane_id,
            (#[trigger] lanes[j]).lane_id,
        )
}

fn classify(vin: Pt, vout: Pt, same_road: bool) -> (r: TurnType)
    requires
        pt_ok(vin),
        pt_ok(vout),
    ensures
        r == classify_spec(vin, vout, same_road),
{
    if same_road {
        return TurnType::UTurn;
    }
    proof {
        crate::geometry::lemma_coord_mul_bound(vin.x as int, vout.y as int);
        crate::geometry::lemma_coord_mul_bound(vin.y as int, vout.x as int);
        crate::geometry::lemma_coord_mul_bound(vin.x as int, vout.x as int);
        crate::geometry::lemma_coord_mul_bound(vin.y as int, vout.y as int);
    }
    let cross = vin.x * vout.y - vin.y * vout.x;
    let dot = vin.x * vout.x + vin.y * vout.y;
    if dot > 0 && -dot <= cross && cross <= dot {
        TurnType::Straight
    } else if cross < 0 {
        TurnType::Right
    } else {
        TurnType::Left
    }
}

fn is_dead_end(lanes: &Vec<ApproachLane>) -> (r: bool)
    ensures
        r == dead_end_spec(lanes@),
{
    if lanes.len() == 0 {
        return true;
    }
    let first = lanes[0].road_id;
    let mut k: usize = 0;
    while k < lanes.len()
        invariant
            k <= lanes@.len(),
            lanes@.len() > 0,
            first == lanes@[0].road_id,
            forall|t: int| 0 <= t < k ==> (#[trigger] lanes@[t]).road_id == first,
        decreases lanes@.len() - k,
    {
        if lanes[k].road_id != first {
            return false;
        }
        k = k + 1;
    }
    true
}

fn is_restricted(restr: &Vec<TurnRestriction>, from: u64, to: u64) -> (r: bool)
    ensures
        r == restricted(restr@, from, to),
{
    let mut k: usize = 0;
    while k < restr.len()
        invariant
            k <= restr@.len(),
            forall|t: int|
                0 <= t < k ==> !((#[trigger] restr@[t]).from_road == from && restr@[t].to_road
                    == to),
        decreases restr@.len() - k,
    {
        if restr[k].from_road == from && restr[k].to_road == to {
            return true;
        }
        k = k + 1;
    }
    false
}

fn contains_pair(out: &Vec<Turn>, src: u64, dst: u64) -> (r: bool)
    ensures
        r == has_pair(out@, src, dst),
{
    let mut k: usize = 0;
    while k < out.len()
        invariant
            k <= out@.len(),
            forall|t: int|
                0 <= t < k ==> !((#[trigger] out@[t]).src == src && out@[t].dst == dst),
        decreases out@.len() - k,
    {
        if out[k].src == src && out[k].dst == dst {
            return true;
        }
        k = k + 1;
    }
    false
}

/// Enumerates every legal turn of one intersection: complete, sound, and
/// with no duplicate (source, destination) pair even when distinct lane
/// records alias the same physical lane. An empty result (a dead end with
/// no outbound partner) is a valid outcome.
#[verifier::loop_isolation(false)]
pub fn make_all_turns(lanes: &Vec<ApproachLane>, restrictions: &Vec<TurnRestriction>) -> (r: Vec<
    Turn,
>)
    requires
        lanes_ok(lanes@),
    ensures
        sound_turns(lanes@, restrictions@, dead_end_spec(lanes@), r@),
        no_dup_pairs(r@),
        complete_turns(lanes@, restrictions@, dead_end_spec(lanes@), r@),
        turns_ok(r@),
{
    let dead_end = is_dead_end(lanes);
    let n = lanes.len();
    let mut out: Vec<Turn> = Vec::new();
    let mut i: usize = 0;
    while i < n
        invariant
            i <= n,
            sound_turns(lanes@, restrictions@, dead_end_spec(lanes@), out@),
            no_dup_pairs(out@),
            turns_ok(out@),
            forall|a: int, b: int|
                0 <= a < i && legal_candidate(lanes@, restrictions@, dead_end_spec(lanes@), a, b)
                    ==> has_pair(out@, (#[trigger] lanes@[a]).lane_id, (#[trigger] lanes@[b]).lane_id),
        decreases n - i,
    {
        if lanes[i].inbound {
            let mut j: usize = 0;
            while j < n
                invariant
                    j <= n,
                    sound_turns(lanes@, restrictions@, dead_end_spec(lanes@), out@),
                    no_dup_pairs(out@),
                    turns_ok(out@),
                    forall|a: int, b: int|
                        0 <= a < i && legal_candidate(
                            lanes@,
                            restrictions@,
                            dead_end_spec(lanes@),
                            a,
                            b,
                        ) ==> has_pair(
                            out@,
                            (#[trigger] lanes@[a]).lane_id,
                            (#[trigger] lanes@[b]).lane_id,
                        ),
                    forall|b: int|
                        0 <= b < j && legal_candidate(
                            lanes@,
                            restrictions@,
                            dead_end_spec(lanes@),
                            i as int,
                            b,
                        ) ==> has_pair(out@, lanes@[i as int].lane_id, (#[trigger] lanes@[b]).lane_id),
                decreases n - j,
            {
                let li = lanes[i];
                let lj = lanes[j];
                if !lj.inbound && li.lane_type == lj.lane_type && !matches!(
                    li.lane_type,
                    LaneType::Parking,
                ) && (li.road_id != lj.road_id || dead_end) && !is_restricted(
                    restrictions,
                    li.road_id,
                    lj.road_id,
                ) {
                    if !contains_pair(&out, li.lane_id, lj.lane_id) {
                        let tt = classify(li.bearing, lj.bearing, li.road_id == lj.road_id);
                        let t = Turn {
                            src: li.lane_id,
                            dst: lj.lane_id,
                            turn_type: tt,
                            path: Connector { from: li.endpoint, to: lj.endpoint },
                        };
                        let ghost out0 = out@;
                        out.push(t);
                        proof {
                            let de = dead_end_spec(lanes@);
                            assert(legal_candidate(lanes@, restrictions@, de, i as int, j as int));
                            assert(out@.last() == turn_of(lanes@, i as int, j as int));
                            assert forall|a: int, b: int|
                                legal_candidate(lanes@, restrictions@, de, a, b) && has_pair(
                                    out0,
                                    lanes@[a].lane_id,
                                    lanes@[b].lane_id,
                                ) implies has_pair(
                                out@,
                                (#[trigger] lanes@[a]).lane_id,
                                (#[trigger] lanes@[b]).lane_id,
                            ) by {
                                let w = choose|k: int|
                                    0 <= k < out0.len() && (#[trigger] out0[k]).src
                                        == lanes@[a].lane_id && out0[k].dst == lanes@[b].lane_id;
                                assert(out@[w] == out0[w]);
                            }
                            assert(has_pair(out@, li.lane_id, lj.lane_id)) by {
                                assert(out@[out@.len() - 1].src == li.lane_id);
                            }
                        }
                    }
                }
                j = j + 1;
            }
        }
        i = i + 1;
    }
    out
}

/// Every generated turn joins an inbound incident lane to an outbound
/// incident lane of the same intersection.
pub proof fn lemma_turns_incident(
    lanes: Seq<ApproachLane>,
    restr: Seq<TurnRestriction>,
    out: Seq<Turn>,
    t: int,
)
    requires
        sound_turns(lanes, restr, dead_end_spec(lanes), out),
        0 <= t < out.len(),
    ensures
        exists|i: int|
            0 <= i < lanes.len() && (#[trigger] lanes[i]).lane_id == out[t].src && lanes[i].inbound,
        exists|j: int|
            0 <= j < lanes.len() && (#[trigger] lanes[j]).lane_id == out[t].dst
                && !lanes[j].inbound,
{
    let (i, j) = choose|i: int, j: int|
        legal_candidate(lanes, restr, dead_end_spec(lanes), i, j) && out[t] == turn_of(
            lanes,
            i,
            j,
        );
    assert(lanes[i].lane_id == out[t].src && lanes[i].inbound);
    assert(lanes[j].lane_id == out[t].dst && !lanes[j].inbound);
}

/// Left-right mirroring of the plane.
pub open spec fn mirror_pt(p: Pt) -> Pt {
    Pt { x: (-p.x) as i64, y: p.y }
}

/// Left-right mirroring of a classification.
pub open spec fn mirror_turn(t: TurnType) -> TurnType {
    match t {
        TurnType::Left => TurnType::Right,
        TurnType::Right => TurnType::Left,
        other => other,
    }
}

/// Mirroring the geometry left-right swaps left and right classifications
/// and preserves straight and u-turn. The one bearing pair left out is the
/// exactly-opposite collinear one, which sits on the boundary between left
/// and right and stays on it under mirroring.
pub proof fn lemma_classify_mirror(vin: Pt, vout: Pt, same_road: bool)
    requires
        pt_ok(vin),
        pt_ok(vout),
        cross_of(vin, vout) != 0 || dot_of(vin, vout) > 0,
    ensures
        classify_spec(mirror_pt(vin), mirror_pt(vout), same_road) == mirror_turn(
            classify_spec(vin, vout, same_road),
        ),
{
    let a = vin.x as int;
    let b = vin.y as int;
    let c = vout.x as int;
    let d = vout.y as int;
    assert(mirror_pt(vin).x as int == -a);
    assert(mirror_pt(vout).x as int == -c);
    assert((-a) * d == -(a * d)) by (nonlinear_arith);
    assert(b * (-c) == -(b * c)) by (nonlinear_arith);
    assert((-a) * (-c) == a * c) by (nonlinear_arith);
    assert(cross_of(mirror_pt(vin), mirror_pt(vout)) == -cross_of(vin, vout));
    assert(dot_of(mirror_pt(vin), mirror_pt(vout)) == dot_of(vin, vout));
}

/// One incident lane with its geometry mirrored left-right.
pub open spec fn mirror_lane(l: ApproachLane) -> ApproachLane {
    ApproachLane {
        lane_id: l.lane_id,
        road_id: l.road_id,
        lane_type: l.lane_type,
        inbound: l.inbound,
        endpoint: mirror_pt(l.endpoint),
        bearing: mirror_pt(l.bearing),
    }
}

/// Mirroring every incident lane of an intersection mirrors the generated
/// turn of each lane pair: left and right swap, straight and u-turn stay.
pub proof fn lemma_turn_of_mirror(lanes: Seq<ApproachLane>, i: int, j: int)
    requires
        0 <= i < lanes.len(),
        0 <= j < lanes.len(),
        pt_ok(lanes[i].bearing),
        pt_ok(lanes[j].bearing),
        cross_of(lanes[i].bearing, lanes[j].bearing) != 0 || dot_of(
            lanes[i].bearing,
            lanes[j].bearing,
        ) > 0,
    ensures
        turn_of(lanes.map_values(|l: ApproachLane| mirror_lane(l)), i, j).turn_type == mirror_turn(
            turn_of(lanes, i, j).turn_type,
        ),
{
    let ml = lanes.map_values(|l: ApproachLane| mirror_lane(l));
    assert(ml[i] == mirror_lane(lanes[i]));
    assert(ml[j] == mirror_lane(lanes[j]));
    lemma_classify_mirror(
        lanes[i].bearing,
        lanes[j].bearing,
        lanes[i].road_id == lanes[j].road_id,
    );
}

/// Two turns conflict when their connector paths cross properly and they
/// share neither end lane (movements merging into or leaving one lane have
/// priority over each other rather than conflicting).
pub open spec fn turns_conflict(t1: Turn, t2: Turn) -> bool {
    t1.src != t2.src && t1.dst != t2.dst && segs_cross_spec(
        t1.path.from,
        t1.path.to,
        t2.path.from,
        t2.path.to,
    )
}

/// The conflict relation is symmetric.
pub proof fn lemma_conflict_symmetric(t1: Turn, t2: Turn)
    ensures
        turns_conflict(t1, t2) == turns_conflict(t2, t1),
{
}

pub open spec fn turns_ok(ts: Seq<Turn>) -> bool {
    forall|t: int|
        0 <= t < ts.len() ==> pt_ok((#[trigger] ts[t]).path.from) && pt_ok(ts[t].path.to)
}

fn conflicts_exec(t1: &Turn, t2: &Turn) -> (r: bool)
    requires
        pt_ok(t1.path.from),
        pt_ok(t1.path.to),
        pt_ok(t2.path.from),
        pt_ok(t2.path.to),
    ensures
        r == turns_conflict(*t1, *t2),
{
    t1.src != t2.src && t1.dst != t2.dst && segs_cross(
        t1.path.from,
        t1.path.to,
        t2.path.from,
        t2.path.to,
    )
}

/// Builds the conflict graph of one intersection's turns: entry `t` lists
/// exactly the turns whose connector crosses turn `t`'s connector under the
/// priority rule of `turns_conflict`. The listing is symmetric because the
/// relation is.
#[verifier::loop_isolation(false)]
pub fn conflict_graph(turns: &Vec<Turn>) -> (r: Vec<Vec<usize>>)
    requires
        turns_ok(turns@),
    ensures
        r@.len() == turns@.len(),
        forall|t: int, u: usize|
            0 <= t < r@.len() ==> ((#[trigger] r@[t]@.contains(u)) <==> u < turns@.len() && t
                != u as int && turns_conflict(turns@[t], turns@[u as int])),
{
    let n = turns.len();
    let mut r: Vec<Vec<usize>> = Vec::new();
    let mut t: usize = 0;
    while t < n
        invariant
            t <= n,
            r@.len() == t,
            forall|a: int, u: usize|
                0 <= a < t ==> ((#[trigger] r@[a]@.contains(u)) <==> u < n && a != u as int
                    && turns_conflict(turns@[a], turns@[u as int])),
        decreases n - t,
    {
        let mut row: Vec<usize> = Vec::new();
        let mut u: usize = 0;
        while u < n
            invariant
                u <= n,
                forall|w: usize|
                    (#[trigger] row@.contains(w)) <==> w < u && t != w as int && turns_conflict(
                        turns@[t as int],
                        turns@[w as int],
                    ),
            decreases n - u,
        {
            if u != t && conflicts_exec(&turns[t], &turns[u]) {
                let ghost row0 = row@;
                row.push(u);
                proof {
                    assert forall|w: usize| #[trigger]
                        row@.contains(w) implies w < u + 1 && t != w as int && turns_conflict(
                        turns@[t as int],
                        turns@[w as int],
                    ) by {
                        let k = choose|k: int| 0 <= k < row@.len() && row@[k] == w;
                        if k < row0.len() {
                            assert(row0[k] == w);
                            assert(row0.contains(w));
                        }
                    }
                    assert forall|w: usize|
                        w < u + 1 && t != w as int && turns_conflict(
                            turns@[t as int],
                            turns@[w as int],
                        ) implies #[trigger] row@.contains(w) by {
                        if w < u {
                            assert(row0.contains(w));
                            let k = choose|k: int| 0 <= k < row0.len() && row0[k] == w;
                            assert(row@[k] == w);
                        } else {
                            assert(row@[row@.len() - 1] == w);
                        }
                    }
                }
            }
            u = u + 1;
        }
        r.push(row);
        t = t + 1;
    }
    r
}

} // verus!
