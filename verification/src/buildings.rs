//! Connection of a building footprint to the nearest usable lane.
//!
//! Candidates are sidewalk lanes first and driving lanes as the fallback,
//! ranked by the distance from the footprint's centroid to the nearest
//! point of the lane's trimmed centerline. The connection path runs from
//! that lane point to the footprint vertex nearest it; a candidate whose
//! path crosses another building's footprint is skipped in favor of the
//! next best. A building with no candidate inside the search radius is
//! reported `Unconnected`: a valid terminal state, never a forced or
//! invented connection.

use vstd::prelude::*;
use crate::geometry::{
    Pt, Polygon, pt_ok, pts_ok, polygon_ok, dist_sq, dist_sq_spec, nearest_on_seg,
    nearest_on_seg_spec, next_vertex, seg_hits_ring, segs_cross, segs_cross_spec,
};
use crate::lanes::LaneType;
use crate::trim::{nearest_vertex, nearest_vertex_spec};

verus! {

/// One trimmed lane offered to the placer.
#[derive(Clone, Debug)]
pub struct BuildingLane {
    pub lane_id: u64,
    pub lane_type: LaneType,
    pub pts: Vec<Pt>,
}

/// A found connection: the point on the lane's centerline and the footprint
/// vertex the access path starts from.
#[derive(Clone, Copy, PartialEq, Eq, Structural, Debug)]
pub struct Connection {
    pub lane_id: u64,
    pub lane_point: Pt,
    pub building_point: Pt,
}

/// The outcome of placing one building.
#[derive(Clone, Copy, PartialEq, Eq, Structural, Debug)]
pub enum Placement {
    Connected(Connection),
    Unconnected,
}

pub open spec fn lanes_input_ok(lanes: Seq<BuildingLane>) -> bool {
    forall|l: int|
        0 <= l < lanes.len() ==> pts_ok((#[trigger] lanes[l]).pts@) && lanes[l].pts@.len() >= 1
}

pub open spec fn obstacles_ok(obs: Seq<Polygon>) -> bool {
    forall|o: int| 0 <= o < obs.len() ==> polygon_ok(#[trigger] obs[o])
}

/// Coordinate sums shifted into nonnegative range, so the centroid's
/// division is exact on the grid.
pub open spec fn shifted_sum_x(s: Seq<Pt>) -> int
    decreases s.len(),
{
    if s.len() == 0 {
        0
    } else {
        shifted_sum_x(s.drop_last()) + s.last().x + 100_000_000
    }
}

pub open spec fn shifted_sum_y(s: Seq<Pt>) -> int
    decreases s.len(),
{
    if s.len() == 0 {
        0
    } else {
        shifted_sum_y(s.drop_last()) + s.last().y + 100_000_000
    }
}

/// The vertex-average centroid of the footprint, rounded to the grid.
pub open spec fn centroid_spec(s: Seq<Pt>) -> Pt {
    Pt {
        x: (shifted_sum_x(s) / (s.len() as int) - 100_000_000) as i64,
        y: (shifted_sum_y(s) / (s.len() as int) - 100_000_000) as i64,
    }
}

/// The nearest point to `p` among the candidate projections onto the first
/// `k` segments of the polyline, earliest segment winning ties.
pub open spec fn nearest_pt_pre(p: Pt, pl: Seq<Pt>, k: int) -> Pt
    decreases k,
{
    if k <= 1 {
        nearest_on_seg_spec(p, pl[0], pl[1])
    } else if dist_sq_spec(p, nearest_on_seg_spec(p, pl[k - 1], pl[k])) < dist_sq_spec(
        p,
        nearest_pt_pre(p, pl, k - 1),
    ) {
        nearest_on_seg_spec(p, pl[k - 1], pl[k])
    } else {
        nearest_pt_pre(p, pl, k - 1)
    }
}

/// The nearest point to `p` on the whole polyline (its single point when it
/// has no segment).
pub open spec fn nearest_pt_spec(p: Pt, pl: Seq<Pt>) -> Pt {
    if pl.len() == 1 {
        pl[0]
    } else {
        nearest_pt_pre(p, pl, pl.len() - 1)
    }
}

/// The straight path `a-b` crosses some other building's footprint.
pub open spec fn path_blocked(obs: Seq<Polygon>, a: Pt, b: Pt) -> bool {
    exists|o: int| 0 <= o < obs.len() && seg_hits_ring(a, b, (#[trigger] obs[o]).pts@)
}

/// The connection `c` is the one computed for lane `l`.
pub open spec fn connection_of(fp: Polygon, lanes: Seq<BuildingLane>, l: int, c: Connection) -> bool {
    &&& c.lane_id == lanes[l].lane_id
    &&& c.lane_point == nearest_pt_spec(centroid_spec(fp.pts@), lanes[l].pts@)
    &&& c.building_point == nearest_vertex_spec(fp.pts@, c.lane_point)
}

fn centroid(poly: &Polygon) -> (c: Pt)
    requires
        polygon_ok(*poly),
    ensures
        c == centroid_spec(poly.pts@),
        pt_ok(c),
{
    let n = poly.pts.len();
    let mut sx: u128 = 0;
    let mut sy: u128 = 0;
    let mut k: usize = 0;
    while k < n
        invariant
            k <= n,
            n == poly.pts@.len(),
            polygon_ok(*poly),
            sx == shifted_sum_x(poly.pts@.take(k as int)),
            sy == shifted_sum_y(poly.pts@.take(k as int)),
            sx <= k * 200_000_000,
            sy <= k * 200_000_000,
            n <= usize::MAX,
        decreases n - k,
    {
        let p = poly.pts[k];
        proof {
            assert(poly.pts@.take(k + 1).drop_last() =~= poly.pts@.take(k as int));
            assert(poly.pts@.take(k + 1).last() == poly.pts@[k as int]);
            assert(shifted_sum_x(poly.pts@.take(k as int)) >= 0) by {
                lemma_shifted_sums_nonneg(poly.pts@.take(k as int));
            }
        }
        sx = sx + ((p.x + MAX_SHIFT) as u128);
        sy = sy + ((p.y + MAX_SHIFT) as u128);
        k = k + 1;
    }
    proof {
        assert(poly.pts@.take(n as int) =~= poly.pts@);
        lemma_shifted_sums_nonneg(poly.pts@);
        vstd::arithmetic::div_mod::lemma_div_pos_is_pos(sx as int, n as int);
        vstd::arithmetic::div_mod::lemma_div_pos_is_pos(sy as int, n as int);
        vstd::arithmetic::div_mod::lemma_div_is_ordered(
            sx as int,
            (n as int) * 200_000_000,
            n as int,
        );
        vstd::arithmetic::div_mod::lemma_div_is_ordered(
            sy as int,
            (n as int) * 200_000_000,
            n as int,
        );
        vstd::arithmetic::div_mod::lemma_div_multiples_vanish(200_000_000, n as int);
    }
    let cx = (sx / (n as u128)) as i64 - MAX_SHIFT;
    let cy = (sy / (n as u128)) as i64 - MAX_SHIFT;
    Pt { x: cx, y: cy }
}

/// The coordinate shift that keeps centroid sums nonnegative.
pub const MAX_SHIFT: i64 = 100_000_000;

proof fn lemma_shifted_sums_nonneg(s: Seq<Pt>)
    requires
        pts_ok(s),
    ensures
        0 <= shifted_sum_x(s) <= s.len() * 200_000_000,
        0 <= shifted_sum_y(s) <= s.len() * 200_000_000,
    decreases s.len(),
{
    if s.len() > 0 {
        assert(pts_ok(s.drop_last()));
        lemma_shifted_sums_nonneg(s.drop_last());
    }
}

/// Computes the nearest point to `p` on the polyline, with its squared
/// distance.
fn nearest_on_polyline(p: Pt, pl: &Vec<Pt>) -> (r: (Pt, i64))
    requires
        pt_ok(p),
        pts_ok(pl@),
        pl@.len() >= 1,
    ensures
        r.0 == nearest_pt_spec(p, pl@),
        pt_ok(r.0),
        r.1 == dist_sq_spec(p, r.0),
{
    let n = pl.len();
    if n == 1 {
        let d = dist_sq(p, pl[0]);
        proof {
            assert(dist_sq_spec(p, pl@[0]) == dist_sq_spec(pl@[0], p)) by (nonlinear_arith);
        }
        return (pl[0], d);
    }
    let mut best = nearest_on_seg(p, pl[0], pl[1]);
    let mut best_d = dist_sq(p, best);
    let mut k: usize = 2;
    while k < n
        invariant
            2 <= k <= n,
            n == pl@.len(),
            pt_ok(p),
            pts_ok(pl@),
            best == nearest_pt_pre(p, pl@, k - 1),
            pt_ok(best),
            best_d == dist_sq_spec(p, best),
        decreases n - k,
    {
        let c = nearest_on_seg(p, pl[k - 1], pl[k]);
        let d = dist_sq(p, c);
        if d < best_d {
            best = c;
            best_d = d;
        }
        k = k + 1;
    }
    (best, best_d)
}

fn seg_hits_ring_exec(a: Pt, b: Pt, poly: &Polygon) -> (r: bool)
    requires
        pt_ok(a),
        pt_ok(b),
        polygon_ok(*poly),
    ensures
        r == seg_hits_ring(a, b, poly.pts@),
{
    let n = poly.pts.len();
    let mut k: usize = 0;
    while k < n
        invariant
            k <= n,
            n == poly.pts@.len(),
            pt_ok(a),
            pt_ok(b),
            polygon_ok(*poly),
            forall|t: int|
                0 <= t < k ==> !segs_cross_spec(
                    a,
                    b,
                    #[trigger] poly.pts@[t],
                    next_vertex(poly.pts@, t),
                ),
        decreases n - k,
    {
        let q1 = poly.pts[k];
        let q2 = if k + 1 == n {
            poly.pts[0]
        } else {
            poly.pts[k + 1]
        };
        if segs_cross(a, b, q1, q2) {
            return true;
        }
        k = k + 1;
    }
    false
}

fn path_blocked_exec(obs: &Vec<Polygon>, a: Pt, b: Pt) -> (r: bool)
    requires
        pt_ok(a),
        pt_ok(b),
        obstacles_ok(obs@),
    ensures
        r == path_blocked(obs@, a, b),
{
    let mut o: usize = 0;
    while o < obs.len()
        invariant
            o <= obs@.len(),
            pt_ok(a),
            pt_ok(b),
            obstacles_ok(obs@),
            forall|t: int| 0 <= t < o ==> !seg_hits_ring(a, b, (#[trigger] obs@[t]).pts@),
        decreases obs@.len() - o,
    {
        if seg_hits_ring_exec(a, b, &obs[o]) {
            return true;
        }
        o = o + 1;
    }
    false
}

/// One pass over the lanes of one type: the admissible lane nearest the
/// centroid, earliest index winning ties.
#[verifier::loop_isolation(false)]
fn best_of_type(
    fp: &Polygon,
    lanes: &Vec<BuildingLane>,
    obs: &Vec<Polygon>,
    radius_sq: i64,
    lt: LaneType,
    c: Pt,
) -> (r: Option<Connection>)
    requires
        polygon_ok(*fp),
        lanes_input_ok(lanes@),
        obstacles_ok(obs@),
        pt_ok(c),
        c == centroid_spec(fp.pts@),
        radius_sq >= 0,
    ensures
        r is Some <==> exists|l: int| admissible_sq(*fp, obs@, lanes@, radius_sq as int, l, lt),
        r matches Option::Some(conn) ==> exists|l: int|
            #[trigger] admissible_sq(*fp, obs@, lanes@, radius_sq as int, l, lt) && connection_of(
                *fp,
                lanes@,
                l,
                conn,
            ),
        r matches Option::Some(conn) ==> forall|l2: int|
            admissible_sq(*fp, obs@, lanes@, radius_sq as int, l2, lt) ==> dist_sq_spec(
                centroid_spec(fp.pts@),
                #[trigger] nearest_pt_spec(centroid_spec(fp.pts@), lanes@[l2].pts@),
            ) >= dist_sq_spec(centroid_spec(fp.pts@), conn.lane_point),
{
    let mut best: Option<Connection> = Option::None;
    let mut best_d: i64 = 0;
    let ghost mut best_l: int = 0;
    let mut l: usize = 0;
    while l < lanes.len()
        invariant
            l <= lanes@.len(),
            best is None ==> forall|t: int|
                0 <= t < l ==> !admissible_sq(*fp, obs@, lanes@, radius_sq as int, t, lt),
            best matches Option::Some(conn) ==> 0 <= best_l < l && admissible_sq(
                *fp,
                obs@,
                lanes@,
                radius_sq as int,
                best_l,
                lt,
            ) && connection_of(*fp, lanes@, best_l, conn) && best_d == dist_sq_spec(
                centroid_spec(fp.pts@),
                conn.lane_point,
            ),
            best matches Option::Some(conn) ==> forall|t: int|
                0 <= t < l && admissible_sq(*fp, obs@, lanes@, radius_sq as int, t, lt)
                    ==> dist_sq_spec(
                    centroid_spec(fp.pts@),
                    #[trigger] nearest_pt_spec(centroid_spec(fp.pts@), lanes@[t].pts@),
                ) >= best_d,
        decreases lanes@.len() - l,
    {
        if lanes[l].lane_type == lt {
            let (np, d) = nearest_on_polyline(c, &lanes[l].pts);
            if d <= radius_sq {
                let bp = nearest_vertex(fp, np);
                if !path_blocked_exec(obs, bp, np) {
                    let newc = Connection {
                        lane_id: lanes[l].lane_id,
                        lane_point: np,
                        building_point: bp,
                    };
                    proof {
                        assert(admissible_sq(*fp, obs@, lanes@, radius_sq as int, l as int, lt));
                        assert(connection_of(*fp, lanes@, l as int, newc));
                    }
                    let take = match best {
                        Option::None => true,
                        Option::Some(_) => d < best_d,
                    };
                    if take {
                        best = Option::Some(newc);
                        best_d = d;
                        proof {
                            best_l = l as int;
                        }
                    }
                }
            }
        }
        l = l + 1;
    }
    best
}

/// `admissible` with the squared radius already computed.
pub open spec fn admissible_sq(
    fp: Polygon,
    obs: Seq<Polygon>,
    lanes: Seq<BuildingLane>,
    radius_sq: int,
    l: int,
    lt: LaneType,
) -> bool {
    let c = centroid_spec(fp.pts@);
    let np = nearest_pt_spec(c, lanes[l].pts@);
    &&& 0 <= l < lanes.len()
    &&& lanes[l].lane_type == lt
    &&& dist_sq_spec(c, np) <= radius_sq
    &&& !path_blocked(obs, nearest_vertex_spec(fp.pts@, np), np)
}

/// Places one building: the nearest admissible sidewalk lane wins, a
/// driving lane only when no sidewalk lane is admissible, and `Unconnected`
/// exactly when neither kind of lane offers a connection within the search
/// radius whose access path avoids the other footprints.
pub fn make_building(
    footprint: &Polygon,
    lanes: &Vec<BuildingLane>,
    radius: i64,
    obstacles: &Vec<Polygon>,
) -> (r: Placement)
    requires
        polygon_ok(*footprint),
        lanes_input_ok(lanes@),
        obstacles_ok(obstacles@),
        0 <= radius <= 200_000_000,
    ensures
        r is Unconnected <==> (forall|l: int|
            #![trigger admissible_sq(*footprint, obstacles@, lanes@, radius * radius, l, LaneType::Sidewalk)]
            #![trigger admissible_sq(*footprint, obstacles@, lanes@, radius * radius, l, LaneType::Driving)]
            !admissible_sq(
                *footprint,
                obstacles@,
                lanes@,
                radius * radius,
                l,
                LaneType::Sidewalk,
            ) && !admissible_sq(
                *footprint,
                obstacles@,
                lanes@,
                radius * radius,
                l,
                LaneType::Driving,
            )),
        r matches Placement::Connected(conn) ==> exists|l: int|
            (#[trigger] admissible_sq(
                *footprint,
                obstacles@,
                lanes@,
                radius * radius,
                l,
                conn_type(lanes@, l),
            )) && connection_of(*footprint, lanes@, l, conn) && (conn_type(lanes@, l)
                is Driving ==> forall|l2: int|
                !#[trigger] admissible_sq(
                    *footprint,
                    obstacles@,
                    lanes@,
                    radius * radius,
                    l2,
                    LaneType::Sidewalk,
                )) && (forall|l2: int|
                admissible_sq(
                    *footprint,
                    obstacles@,
                    lanes@,
                    radius * radius,
                    l2,
                    conn_type(lanes@, l),
                ) ==> dist_sq_spec(
                    centroid_spec(footprint.pts@),
                    #[trigger] nearest_pt_spec(centroid_spec(footprint.pts@), lanes@[l2].pts@),
                ) >= dist_sq_spec(centroid_spec(footprint.pts@), conn.lane_point)),
{
    proof {
        crate::geometry::lemma_coord_mul_bound(radius as int, radius as int);
    }
    let radius_sq = radius * radius;
    proof {
        assert(radius_sq as int == radius * radius);
    }
    let c = centroid(footprint);
    let side = best_of_type(footprint, lanes, obstacles, radius_sq, LaneType::Sidewalk, c);
    match side {
        Option::Some(conn) => {
            proof {
                let l = choose|l: int|
                    #[trigger] admissible_sq(
                        *footprint,
                        obstacles@,
                        lanes@,
                        radius_sq as int,
                        l,
                        LaneType::Sidewalk,
                    ) && connection_of(*footprint, lanes@, l, conn);
                assert(conn_type(lanes@, l) is Sidewalk);
                assert(admissible_sq(
                    *footprint,
                    obstacles@,
                    lanes@,
                    radius * radius,
                    l,
                    LaneType::Sidewalk,
                ));
                assert(admissible_sq(
                    *footprint,
                    obstacles@,
                    lanes@,
                    radius * radius,
                    l,
                    conn_type(lanes@, l),
                ));
                assert forall|l2: int|
                    admissible_sq(
                        *footprint,
                        obstacles@,
                        lanes@,
                        radius * radius,
                        l2,
                        conn_type(lanes@, l),
                    ) implies dist_sq_spec(
                    centroid_spec(footprint.pts@),
                    #[trigger] nearest_pt_spec(centroid_spec(footprint.pts@), lanes@[l2].pts@),
                ) >= dist_sq_spec(centroid_spec(footprint.pts@), conn.lane_point) by {
                    assert(admissible_sq(
                        *footprint,
                        obstacles@,
                        lanes@,
                        radius_sq as int,
                        l2,
                        LaneType::Sidewalk,
                    ));
                }
            }
            Placement::Connected(conn)
        },
        Option::None => {
            let drive = best_of_type(footprint, lanes, obstacles, radius_sq, LaneType::Driving, c);
            match drive {
                Option::Some(conn) => {
                    proof {
                        let l = choose|l: int|
                            #[trigger] admissible_sq(
                                *footprint,
                                obstacles@,
                                lanes@,
                                radius_sq as int,
                                l,
                                LaneType::Driving,
                            ) && connection_of(*footprint, lanes@, l, conn);
                        assert(conn_type(lanes@, l) is Driving);
                        assert(admissible_sq(
                            *footprint,
                            obstacles@,
                            lanes@,
                            radius * radius,
                            l,
                            LaneType::Driving,
                        ));
                        assert(admissible_sq(
                            *footprint,
                            obstacles@,
                            lanes@,
                            radius * radius,
                            l,
                            conn_type(lanes@, l),
                        ));
                        assert forall|l2: int|
                            admissible_sq(
                                *footprint,
                                obstacles@,
                                lanes@,
                                radius * radius,
                                l2,
                                conn_type(lanes@, l),
                            ) implies dist_sq_spec(
                            centroid_spec(footprint.pts@),
                            #[trigger] nearest_pt_spec(
                                centroid_spec(footprint.pts@),
                                lanes@[l2].pts@,
                            ),
                        ) >= dist_sq_spec(centroid_spec(footprint.pts@), conn.lane_point) by {
                            assert(admissible_sq(
                                *footprint,
                                obstacles@,
                                lanes@,
                                radius_sq as int,
                                l2,
                                LaneType::Driving,
                            ));
                        }
                    }
                    Placement::Connected(conn)
                },
                Option::None => {
                    proof {
                        assert forall|l: int|
                            #![trigger admissible_sq(*footprint, obstacles@, lanes@, radius * radius, l, LaneType::Sidewalk)]
                            #![trigger admissible_sq(*footprint, obstacles@, lanes@, radius * radius, l, LaneType::Driving)]
                            !admissible_sq(
                                *footprint,
                                obstacles@,
                                lanes@,
                                radius * radius,
                                l,
                                LaneType::Sidewalk,
                            ) && !admissible_sq(
                                *footprint,
                                obstacles@,
                                lanes@,
                                radius * radius,
                                l,
                                LaneType::Driving,
                            ) by {
                            if admissible_sq(
                                *footprint,
                                obstacles@,
                                lanes@,
                                radius * radius,
                                l,
                                LaneType::Sidewalk,
                            ) {
                                assert(admissible_sq(
                                    *footprint,
                                    obstacles@,
                                    lanes@,
                                    radius_sq as int,
                                    l,
                                    LaneType::Sidewalk,
                                ));
                            }
                            if admissible_sq(
                                *footprint,
                                obstacles@,
                                lanes@,
                                radius * radius,
                                l,
                                LaneType::Driving,
                            ) {
                                assert(admissible_sq(
                                    *footprint,
                                    obstacles@,
                                    lanes@,
                                    radius_sq as int,
                                    l,
                                    LaneType::Driving,
                                ));
                            }
                        }
                    }
                    Placement::Unconnected
                },
            }
        },
    }
}

/// The type of lane `l`, as the classification of a produced connection.
pub open spec fn conn_type(lanes: Seq<BuildingLane>, l: int) -> LaneType {
    lanes[l].lane_type
}

} // verus!