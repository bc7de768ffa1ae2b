//! The batch pass over all roads: lane derivation then trimming, road by
//! road. A road whose tags or geometry are unusable is reported and
//! skipped; it never aborts the processing of its siblings, so the pass
//! always completes with a partial model plus its diagnostics.

use vstd::prelude::*;
use crate::MapError;
use crate::geometry::{Pt, Polygon, pts_ok, polygon_ok};
use crate::lanes::{get_lane_specs, lane_specs_of, LaneSpec, RoadTags};
use crate::trim::{degenerate, trim_lines, trimmed_ok};

verus! {

/// One road as handed to the pipeline by the parsing collaborator.
#[derive(Clone, Debug)]
pub struct RoadRecord {
    pub id: u64,
    pub tags: RoadTags,
    pub centerline: Vec<Pt>,
    /// Index of the intersection at the start of the centerline.
    pub start_i: usize,
    /// Index of the intersection at the end of the centerline.
    pub end_i: usize,
}

/// A successfully built road: its lane layout and one trimmed centerline
/// per lane, in lane order.
#[derive(Clone, Debug)]
pub struct RoadLanes {
    pub road: u64,
    pub specs: Vec<LaneSpec>,
    pub lines: Vec<Vec<Pt>>,
}

/// A diagnostic for a road the pass had to skip.
#[derive(Clone, Copy, PartialEq, Eq, Structural, Debug)]
pub struct RoadIssue {
    pub road: u64,
    pub error: MapError,
}

/// What became of one input road.
#[derive(Clone, Debug)]
pub enum RoadOutcome {
    Built(RoadLanes),
    Skipped(RoadIssue),
}

pub open spec fn roads_input_ok(roads: Seq<RoadRecord>, ints: Seq<Polygon>) -> bool {
    forall|k: int|
        0 <= k < roads.len() ==> pts_ok((#[trigger] roads[k]).centerline@) && roads[k].start_i
            < ints.len() && roads[k].end_i < ints.len()
}

pub open spec fn ints_ok(ints: Seq<Polygon>) -> bool {
    forall|o: int| 0 <= o < ints.len() ==> polygon_ok(#[trigger] ints[o])
}

/// The entry built for road `k` is correct: the pinned lane layout, and one
/// properly trimmed line per lane against the road's two intersections.
pub open spec fn built_ok(
    roads: Seq<RoadRecord>,
    ints: Seq<Polygon>,
    tolerance: u32,
    k: int,
    e: RoadLanes,
) -> bool {
    let r = roads[k];
    &&& e.road == r.id
    &&& lane_specs_of(r.tags, tolerance) == Result::<Seq<LaneSpec>, MapError>::Ok(e.specs@)
    &&& e.lines@.len() == e.specs@.len()
    &&& (forall|l: int|
        0 <= l < e.lines@.len() ==> trimmed_ok(
            r.centerline@,
            (#[trigger] e.lines@[l])@,
            ints[r.start_i as int].pts@,
            ints[r.end_i as int].pts@,
        ))
}

/// The outcome owed to road `k`: skipped with `InvalidLaneConfig` when its
/// tags cannot fit the cross-section, skipped with `DegenerateGeometry`
/// when its centerline has no length, built otherwise.
pub open spec fn outcome_ok(
    roads: Seq<RoadRecord>,
    ints: Seq<Polygon>,
    tolerance: u32,
    k: int,
    out: RoadOutcome,
) -> bool {
    let r = roads[k];
    if lane_specs_of(r.tags, tolerance) is Err {
        out matches RoadOutcome::Skipped(i) && i.road == r.id && i.error
            == MapError::InvalidLaneConfig
    } else if degenerate(r.centerline@) {
        out matches RoadOutcome::Skipped(i) && i.road == r.id && i.error
            == MapError::DegenerateGeometry
    } else {
        out matches RoadOutcome::Built(e) && built_ok(roads, ints, tolerance, k, e)
    }
}

/// Runs lane derivation and trimming over every road. No road's failure
/// stops the pass: the result has exactly one outcome per input road, in
/// input order, each correct per `outcome_ok`.
pub fn build_roads(roads: &Vec<RoadRecord>, ints: &Vec<Polygon>, tolerance: u32) -> (r: Vec<
    RoadOutcome,
>)
    requires
        roads_input_ok(roads@, ints@),
        ints_ok(ints@),
    ensures
        r@.len() == roads@.len(),
        forall|k: int|
            0 <= k < roads@.len() ==> outcome_ok(roads@, ints@, tolerance, k, #[trigger] r@[k]),
{
    let mut out: Vec<RoadOutcome> = Vec::new();
    let mut k: usize = 0;
    while k < roads.len()
        invariant
            k <= roads@.len(),
            out@.len() == k,
            roads_input_ok(roads@, ints@),
            ints_ok(ints@),
            forall|t: int|
                0 <= t < k ==> outcome_ok(roads@, ints@, tolerance, t, #[trigger] out@[t]),
        decreases roads@.len() - k,
    {
        let road = &roads[k];
        match get_lane_specs(&road.tags, tolerance) {
            Result::Err(e) => {
                out.push(RoadOutcome::Skipped(RoadIssue { road: road.id, error: e }));
            },
            Result::Ok(specs) => {
                match trim_lines(
                    &road.centerline,
                    &specs,
                    &ints[road.start_i],
                    &ints[road.end_i],
                ) {
                    Result::Err(e) => {
                        out.push(RoadOutcome::Skipped(RoadIssue { road: road.id, error: e }));
                    },
                    Result::Ok(lines) => {
                        out.push(
                            RoadOutcome::Built(RoadLanes { road: road.id, specs, lines }),
                        );
                    },
                }
            },
        }
        k = k + 1;
    }
    out
}

/// One intersection as handed to the turn stage: its incident lanes as
/// trimmed, and the tag-declared restrictions that apply there.
#[derive(Clone, Debug)]
pub struct IntersectionRecord {
    pub id: u64,
    pub lanes: Vec<crate::turns::ApproachLane>,
    pub restrictions: Vec<crate::turns::TurnRestriction>,
}

/// One intersection's derived movements: its turn set and, aligned with it,
/// each turn's conflict list.
#[derive(Clone, Debug)]
pub struct IntersectionTurns {
    pub intersection: u64,
    pub turns: Vec<crate::turns::Turn>,
    pub conflicts: Vec<Vec<usize>>,
}

pub open spec fn ints_input_ok(recs: Seq<IntersectionRecord>) -> bool {
    forall|k: int| 0 <= k < recs.len() ==> crate::turns::lanes_ok((#[trigger] recs[k]).lanes@)
}

/// The entry derived for intersection `k` is correct: a complete, sound,
/// duplicate-free turn set with its symmetric conflict graph. An empty turn
/// set (a dead end with no partner) is a valid entry, not an error.
pub open spec fn turns_entry_ok(recs: Seq<IntersectionRecord>, k: int, e: IntersectionTurns) -> bool {
    let rec = recs[k];
    &&& e.intersection == rec.id
    &&& crate::turns::sound_turns(
        rec.lanes@,
        rec.restrictions@,
        crate::turns::dead_end_spec(rec.lanes@),
        e.turns@,
    )
    &&& crate::turns::no_dup_pairs(e.turns@)
    &&& crate::turns::complete_turns(
        rec.lanes@,
        rec.restrictions@,
        crate::turns::dead_end_spec(rec.lanes@),
        e.turns@,
    )
    &&& e.conflicts@.len() == e.turns@.len()
    &&& (forall|t: int, u: usize|
        0 <= t < e.conflicts@.len() ==> ((#[trigger] e.conflicts@[t]@.contains(u)) <==> u
            < e.turns@.len() && t != u as int && crate::turns::turns_conflict(
            e.turns@[t],
            e.turns@[u as int],
        )))
}

/// Runs turn generation over every intersection once trimming is done. No
/// intersection can fail: one entry per input record, in input order.
pub fn build_turns(recs: &Vec<IntersectionRecord>) -> (r: Vec<IntersectionTurns>)
    requires
        ints_input_ok(recs@),
    ensures
        r@.len() == recs@.len(),
        forall|k: int| 0 <= k < recs@.len() ==> turns_entry_ok(recs@, k, #[trigger] r@[k]),
{
    let mut out: Vec<IntersectionTurns> = Vec::new();
    let mut k: usize = 0;
    while k < recs.len()
        invariant
            k <= recs@.len(),
            out@.len() == k,
            ints_input_ok(recs@),
            forall|t: int| 0 <= t < k ==> turns_entry_ok(recs@, t, #[trigger] out@[t]),
        decreases recs@.len() - k,
    {
        let rec = &recs[k];
        let turns = crate::turns::make_all_turns(&rec.lanes, &rec.restrictions);
        let conflicts = crate::turns::conflict_graph(&turns);
        out.push(IntersectionTurns { intersection: rec.id, turns, conflicts });
        k = k + 1;
    }
    out
}

} // verus!
