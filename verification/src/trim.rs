//! Trimming of lane centerlines at intersection boundaries.
//!
//! Each lane's centerline is clipped so that it terminates at the boundary
//! polygon of the intersection at either end. The kept interior is always a
//! contiguous run of the raw points, every one of them strictly outside both
//! boundary polygons; at most one computed trim point is added per trimmed
//! end, on the crossing segment or snapped to the boundary. Degenerate
//! geometry (a road swallowed whole by its intersections, no clean boundary
//! crossing) falls back to snapping instead of failing; only a centerline
//! with fewer than two distinct points is an error.

use vstd::prelude::*;
use crate::MapError;
use crate::geometry::{
    Pt, Polygon, pt_ok, pts_ok, polygon_ok, inside_polygon, point_in_polygon, dist_sq,
    dist_sq_spec, seg_hits_ring, segs_cross, segs_cross_spec, seg_intersection,
};
use crate::lanes::LaneSpec;

verus! {

/// A centerline that cannot be trimmed at all: fewer than two distinct
/// points, hence zero length.
pub open spec fn degenerate(pl: Seq<Pt>) -> bool {
    pl.len() < 2 || forall|i: int| 0 <= i < pl.len() ==> #[trigger] pl[i] == pl[0]
}

pub open spec fn is_vertex_of(p: Pt, poly: Seq<Pt>) -> bool {
    exists|k: int| 0 <= k < poly.len() && #[trigger] poly[k] == p
}

/// `p` lies within the axis-aligned bounding box of the segment `u-v`: the
/// sense in which a computed trim point never extends past the raw line.
pub open spec fn within_seg_bbox(p: Pt, u: Pt, v: Pt) -> bool {
    &&& (u.x <= v.x ==> u.x <= p.x <= v.x)
    &&& (v.x <= u.x ==> v.x <= p.x <= u.x)
    &&& (u.y <= v.y ==> u.y <= p.y <= v.y)
    &&& (v.y <= u.y ==> v.y <= p.y <= u.y)
}

/// Raw points `i..=j` all lie strictly outside both boundary polygons.
pub open spec fn core_outside(raw: Seq<Pt>, i: int, j: int, sb: Seq<Pt>, eb: Seq<Pt>) -> bool {
    forall|k: int|
        i <= k <= j ==> !inside_polygon(sb, #[trigger] raw[k]) && !inside_polygon(eb, raw[k])
}

/// The witness shape of a normally trimmed line: `out` is `a` added start
/// point(s), the raw core `i..=j`, then `b` added end point(s). A point is
/// added at an end exactly when raw points were cut away there, and it lies
/// on the crossing segment's bounding box or is a vertex of that boundary.
pub open spec fn trim_shape(
    raw: Seq<Pt>,
    out: Seq<Pt>,
    i: int,
    j: int,
    a: int,
    b: int,
    sb: Seq<Pt>,
    eb: Seq<Pt>,
) -> bool {
    &&& 0 <= i <= j < raw.len()
    &&& 0 <= a <= 1
    &&& 0 <= b <= 1
    &&& out.len() == a + (j - i + 1) + b
    &&& (forall|k: int| i <= k <= j ==> #[trigger] out[a + k - i] == raw[k])
    &&& core_outside(raw, i, j, sb, eb)
    &&& (a == 1 <==> i > 0)
    &&& (b == 1 <==> j < raw.len() - 1)
    &&& (a == 1 ==> if seg_hits_ring(raw[i - 1], raw[i], sb) {
        within_seg_bbox(out[0], raw[i - 1], raw[i])
    } else {
        is_vertex_of(out[0], sb)
    })
    &&& (b == 1 ==> if seg_hits_ring(raw[j], raw[j + 1], eb) {
        within_seg_bbox(out[out.len() - 1], raw[j], raw[j + 1])
    } else {
        is_vertex_of(out[out.len() - 1], eb)
    })
}

/// A normally trimmed line: some core and added trim points as above.
pub open spec fn prefix_suffix_trim(raw: Seq<Pt>, out: Seq<Pt>, sb: Seq<Pt>, eb: Seq<Pt>) -> bool {
    exists|i: int, j: int, a: int, b: int| trim_shape(raw, out, i, j, a, b, sb, eb)
}

/// The snap fallback: the whole line degenerated inside the intersections,
/// so it is replaced by the boundary vertices nearest its two raw endpoints.
pub open spec fn snap_result(out: Seq<Pt>, sb: Seq<Pt>, eb: Seq<Pt>) -> bool {
    out.len() == 2 && is_vertex_of(out[0], sb) && is_vertex_of(out[1], eb)
}

/// Every successful trim is one of the two shapes.
pub open spec fn trimmed_ok(raw: Seq<Pt>, out: Seq<Pt>, sb: Seq<Pt>, eb: Seq<Pt>) -> bool {
    prefix_suffix_trim(raw, out, sb, eb) || snap_result(out, sb, eb)
}

/// Raw points `i..=j` are a clean core: everything cut away at the start
/// sits inside the start boundary, everything cut at the end inside the end
/// boundary, and the core itself avoids both. Such a pair is unique when it
/// exists.
pub open spec fn clean_core(raw: Seq<Pt>, sb: Seq<Pt>, eb: Seq<Pt>, i: int, j: int) -> bool {
    &&& 0 <= i <= j < raw.len()
    &&& (forall|k: int| 0 <= k < i ==> inside_polygon(sb, #[trigger] raw[k]))
    &&& (forall|k: int| j < k < raw.len() ==> inside_polygon(eb, #[trigger] raw[k]))
    &&& !inside_polygon(sb, raw[i])
    &&& !inside_polygon(eb, raw[j])
    &&& core_outside(raw, i, j, sb, eb)
}

/// A normal (non-snapping) trim is possible at all.
pub open spec fn normal_possible(raw: Seq<Pt>, sb: Seq<Pt>, eb: Seq<Pt>) -> bool {
    exists|i: int, j: int| clean_core(raw, sb, eb, i, j)
}

/// First index whose point is not inside `poly` (the length if none).
fn find_first_outside(pl: &Vec<Pt>, poly: &Polygon) -> (r: usize)
    requires
        pts_ok(pl@),
        polygon_ok(*poly),
    ensures
        r <= pl@.len(),
        forall|k: int| 0 <= k < r ==> inside_polygon(poly.pts@, #[trigger] pl@[k]),
        r < pl@.len() ==> !inside_polygon(poly.pts@, pl@[r as int]),
{
    let mut k: usize = 0;
    while k < pl.len()
        invariant
            k <= pl@.len(),
            pts_ok(pl@),
            polygon_ok(*poly),
            forall|t: int| 0 <= t < k ==> inside_polygon(poly.pts@, #[trigger] pl@[t]),
        decreases pl@.len() - k,
    {
        if !point_in_polygon(poly, pl[k]) {
            return k;
        }
        k = k + 1;
    }
    k
}

/// Last index at or after `lo` whose point is not inside `poly` (`lo - 1`,
/// reported through the `found` flag, if none).
fn find_last_outside(pl: &Vec<Pt>, poly: &Polygon, lo: usize) -> (r: (usize, bool))
    requires
        pts_ok(pl@),
        polygon_ok(*poly),
        lo < pl@.len(),
    ensures
        r.1 ==> lo <= r.0 < pl@.len() && !inside_polygon(poly.pts@, pl@[r.0 as int]) && forall|
            k: int,
        |
            r.0 < k < pl@.len() ==> inside_polygon(poly.pts@, #[trigger] pl@[k]),
        !r.1 ==> forall|k: int| lo <= k < pl@.len() ==> inside_polygon(poly.pts@, #[trigger] pl@[k]),
{
    let mut k: usize = pl.len();
    while k > lo
        invariant
            lo <= k <= pl@.len(),
            pts_ok(pl@),
            polygon_ok(*poly),
            forall|t: int| k <= t < pl@.len() ==> inside_polygon(poly.pts@, #[trigger] pl@[t]),
        decreases k,
    {
        k = k - 1;
        if !point_in_polygon(poly, pl[k]) {
            return (k, true);
        }
    }
    (0, false)
}

/// Checks that raw points `i..=j` avoid both boundary polygons.
fn all_outside(pl: &Vec<Pt>, i: usize, j: usize, sb: &Polygon, eb: &Polygon) -> (r: bool)
    requires
        pts_ok(pl@),
        polygon_ok(*sb),
        polygon_ok(*eb),
        i <= j < pl@.len(),
    ensures
        r == core_outside(pl@, i as int, j as int, sb.pts@, eb.pts@),
{
    let n = pl.len();
    let mut k: usize = i;
    while k <= j
        invariant
            i <= k <= j + 1,
            n == pl@.len(),
            j < pl@.len(),
            pts_ok(pl@),
            polygon_ok(*sb),
            polygon_ok(*eb),
            forall|t: int|
                i <= t < k ==> !inside_polygon(sb.pts@, #[trigger] pl@[t]) && !inside_polygon(
                    eb.pts@,
                    pl@[t],
                ),
        decreases j + 1 - k,
    {
        if point_in_polygon(sb, pl[k]) || point_in_polygon(eb, pl[k]) {
            return false;
        }
        k = k + 1;
    }
    true
}

/// The vertex of `s` nearest to `p` among the first `k` vertices, earliest
/// index winning ties.
pub open spec fn nearest_vertex_pre(s: Seq<Pt>, p: Pt, k: int) -> Pt
    decreases k,
{
    if k <= 1 {
        s[0]
    } else if dist_sq_spec(s[k - 1], p) < dist_sq_spec(nearest_vertex_pre(s, p, k - 1), p) {
        s[k - 1]
    } else {
        nearest_vertex_pre(s, p, k - 1)
    }
}

/// The boundary vertex nearest to `p`, earliest index winning ties.
pub open spec fn nearest_vertex_spec(s: Seq<Pt>, p: Pt) -> Pt {
    nearest_vertex_pre(s, p, s.len() as int)
}

/// Computes the boundary vertex nearest to `p`.
pub(crate) fn nearest_vertex(poly: &Polygon, p: Pt) -> (r: Pt)
    requires
        polygon_ok(*poly),
        pt_ok(p),
    ensures
        r == nearest_vertex_spec(poly.pts@, p),
        is_vertex_of(r, poly.pts@),
        pt_ok(r),
        forall|k: int|
            0 <= k < poly.pts@.len() ==> dist_sq_spec(r, p) <= dist_sq_spec(
                #[trigger] poly.pts@[k],
                p,
            ),
{
    let mut best = poly.pts[0];
    let mut best_d = dist_sq(best, p);
    let mut k: usize = 1;
    while k < poly.pts.len()
        invariant
            1 <= k <= poly.pts@.len(),
            polygon_ok(*poly),
            pt_ok(p),
            is_vertex_of(best, poly.pts@),
            pt_ok(best),
            best_d == dist_sq_spec(best, p),
            best == nearest_vertex_pre(poly.pts@, p, k as int),
            forall|t: int|
                0 <= t < k ==> best_d <= dist_sq_spec(#[trigger] poly.pts@[t], p),
        decreases poly.pts@.len() - k,
    {
        let d = dist_sq(poly.pts[k], p);
        if d < best_d {
            best = poly.pts[k];
            best_d = d;
        }
        k = k + 1;
    }
    best
}

/// The trim point where the crossing segment `u-v` (from inside the
/// boundary to outside it) meets the boundary: among the properly crossed
/// boundary edges the intersection nearest `endpoint` wins; if no edge is
/// crossed properly, the boundary vertex nearest `endpoint` is the snap
/// fallback.
fn crossing_trim_point(u: Pt, v: Pt, poly: &Polygon, endpoint: Pt) -> (r: Pt)
    requires
        pt_ok(u),
        pt_ok(v),
        pt_ok(endpoint),
        polygon_ok(*poly),
    ensures
        pt_ok(r),
        seg_hits_ring(u, v, poly.pts@) ==> within_seg_bbox(r, u, v),
        !seg_hits_ring(u, v, poly.pts@) ==> is_vertex_of(r, poly.pts@),
{
    let n = poly.pts.len();
    let mut best: Option<Pt> = Option::None;
    let mut best_d: i64 = 0;
    let mut k: usize = 0;
    while k < n
        invariant
            k <= n,
            n == poly.pts@.len(),
            pt_ok(u),
            pt_ok(v),
            pt_ok(endpoint),
            polygon_ok(*poly),
            best matches Option::Some(b) ==> pt_ok(b) && within_seg_bbox(b, u, v) && best_d
                == dist_sq_spec(b, endpoint),
            best is Some ==> seg_hits_ring(u, v, poly.pts@),
            best is None ==> forall|t: int|
                0 <= t < k ==> !segs_cross_spec(
                    u,
                    v,
                    #[trigger] poly.pts@[t],
                    crate::geometry::next_vertex(poly.pts@, t),
                ),
        decreases n - k,
    {
        let a = poly.pts[k];
        let b = if k + 1 == n {
            poly.pts[0]
        } else {
            poly.pts[k + 1]
        };
        if segs_cross(u, v, a, b) {
            proof {
                assert(segs_cross_spec(
                    u,
                    v,
                    poly.pts@[k as int],
                    crate::geometry::next_vertex(poly.pts@, k as int),
                ));
            }
            let c = seg_intersection(u, v, a, b);
            let d = dist_sq(c, endpoint);
            match best {
                Option::None => {
                    best = Option::Some(c);
                    best_d = d;
                },
                Option::Some(_) => {
                    if d < best_d {
                        best = Option::Some(c);
                        best_d = d;
                    }
                },
            }
        }
        k = k + 1;
    }
    match best {
        Option::Some(c) => c,
        Option::None => nearest_vertex(poly, endpoint),
    }
}

fn is_degenerate(pl: &Vec<Pt>) -> (r: bool)
    ensures
        r == degenerate(pl@),
{
    let n = pl.len();
    if n < 2 {
        return true;
    }
    let p0 = pl[0];
    let mut k: usize = 1;
    while k < n
        invariant
            1 <= k <= n,
            n == pl@.len(),
            n >= 2,
            p0 == pl@[0],
            forall|t: int| 0 <= t < k ==> #[trigger] pl@[t] == pl@[0],
        decreases n - k,
    {
        if !(pl[k] == p0) {
            return false;
        }
        k = k + 1;
    }
    true
}

/// Builds the snap fallback for a line swallowed by its intersections.
fn snap_fallback(pl: &Vec<Pt>, sb: &Polygon, eb: &Polygon) -> (r: Vec<Pt>)
    requires
        pl@.len() >= 1,
        pts_ok(pl@),
        polygon_ok(*sb),
        polygon_ok(*eb),
    ensures
        snap_result(r@, sb.pts@, eb.pts@),
        pts_ok(r@),
        r@.len() == 2,
{
    let s = nearest_vertex(sb, pl[0]);
    let e = nearest_vertex(eb, pl[pl.len() - 1]);
    let mut out: Vec<Pt> = Vec::new();
    out.push(s);
    out.push(e);
    out
}

/// Trims one centerline at both intersection boundaries.
///
/// Walks the raw line from each end past the points inside the respective
/// boundary polygon; the kept core is the contiguous run of raw points
/// outside both, and where points were cut away a computed trim point is
/// prepended or appended: the intersection of the crossing segment with the
/// crossed boundary edge nearest the raw endpoint, or the boundary vertex
/// nearest that endpoint when no edge is crossed cleanly. A line with no
/// such core (shorter than its intersections, or weaving across them)
/// snaps to the two boundaries instead. Only a centerline with fewer than
/// two distinct points is an error.
#[verifier::loop_isolation(false)]
#[verifier::rlimit(100)]
pub fn trim_polyline(pl: &Vec<Pt>, sb: &Polygon, eb: &Polygon) -> (r: Result<Vec<Pt>, MapError>)
    requires
        pts_ok(pl@),
        polygon_ok(*sb),
        polygon_ok(*eb),
    ensures
        r is Err <==> degenerate(pl@),
        r is Err ==> r->Err_0 == MapError::DegenerateGeometry,
        r is Ok ==> trimmed_ok(pl@, r->Ok_0@, sb.pts@, eb.pts@),
        r is Ok && normal_possible(pl@, sb.pts@, eb.pts@) ==> prefix_suffix_trim(
            pl@,
            r->Ok_0@,
            sb.pts@,
            eb.pts@,
        ),
        r is Ok && !normal_possible(pl@, sb.pts@, eb.pts@) ==> snap_result(
            r->Ok_0@,
            sb.pts@,
            eb.pts@,
        ),
        r is Ok ==> pts_ok(r->Ok_0@) && r->Ok_0@.len() >= 1,
{
    if is_degenerate(pl) {
        return Result::Err(MapError::DegenerateGeometry);
    }
    let n = pl.len();
    let i = find_first_outside(pl, sb);
    if i == n {
        proof {
            // every raw point sits inside the start boundary: no clean core
            if normal_possible(pl@, sb.pts@, eb.pts@) {
                let (i2, j2) = choose|i2: int, j2: int| clean_core(pl@, sb.pts@, eb.pts@, i2, j2);
                assert(inside_polygon(sb.pts@, pl@[i2]));
            }
        }
        return Result::Ok(snap_fallback(pl, sb, eb));
    }
    let (j, found) = find_last_outside(pl, eb, i);
    if !found {
        proof {
            // every point from the first one clear of the start boundary on
            // sits inside the end boundary: no clean core
            if normal_possible(pl@, sb.pts@, eb.pts@) {
                let (i2, j2) = choose|i2: int, j2: int| clean_core(pl@, sb.pts@, eb.pts@, i2, j2);
                if j2 >= i {
                    assert(inside_polygon(eb.pts@, pl@[j2]));
                } else {
                    assert(inside_polygon(sb.pts@, pl@[i2]));
                }
            }
        }
        return Result::Ok(snap_fallback(pl, sb, eb));
    }
    if !all_outside(pl, i, j, sb, eb) {
        proof {
            // a clean core could only be the run between the two scans, and
            // that run touches a boundary: no clean core
            if normal_possible(pl@, sb.pts@, eb.pts@) {
                let (i2, j2) = choose|i2: int, j2: int| clean_core(pl@, sb.pts@, eb.pts@, i2, j2);
                if i2 < i {
                    assert(inside_polygon(sb.pts@, pl@[i2]));
                } else if i2 > i {
                    assert(inside_polygon(sb.pts@, pl@[i as int]));
                }
                if j2 > j {
                    assert(inside_polygon(eb.pts@, pl@[j2]));
                } else if j2 < j {
                    assert(inside_polygon(eb.pts@, pl@[j as int]));
                }
                assert(i2 == i && j2 == j);
                assert(core_outside(pl@, i as int, j as int, sb.pts@, eb.pts@));
            }
        }
        return Result::Ok(snap_fallback(pl, sb, eb));
    }
    proof {
        assert(clean_core(pl@, sb.pts@, eb.pts@, i as int, j as int));
    }
    let ghost ga: int = if i > 0 {
        1int
    } else {
        0int
    };
    let mut out: Vec<Pt> = Vec::new();
    if i > 0 {
        let t = crossing_trim_point(pl[i - 1], pl[i], sb, pl[0]);
        out.push(t);
    }
    let mut k: usize = i;
    while k <= j
        invariant
            i <= k <= j + 1,
            out@.len() == ga + (k - i),
            forall|t: int| i <= t < k ==> #[trigger] out@[ga + t - i] == pl@[t],
            forall|t: int| 0 <= t < out@.len() ==> pt_ok(#[trigger] out@[t]),
            i > 0 ==> if seg_hits_ring(pl@[i - 1], pl@[i as int], sb.pts@) {
                within_seg_bbox(out@[0], pl@[i - 1], pl@[i as int])
            } else {
                is_vertex_of(out@[0], sb.pts@)
            },
        decreases j + 1 - k,
    {
        out.push(pl[k]);
        k = k + 1;
    }
    let ghost gb: int = if j + 1 < n {
        1int
    } else {
        0int
    };
    if j + 1 < n {
        let t = crossing_trim_point(pl[j], pl[j + 1], eb, pl[n - 1]);
        out.push(t);
    }
    proof {
        assert(trim_shape(pl@, out@, i as int, j as int, ga, gb, sb.pts@, eb.pts@));
    }
    Result::Ok(out)
}

/// Trims every lane of one road. The lanes of a road share the road's
/// centerline, so each lane receives the same trimmed line, one entry per
/// lane spec, in lane order.
pub fn trim_lines(pl: &Vec<Pt>, specs: &Vec<LaneSpec>, sb: &Polygon, eb: &Polygon) -> (r: Result<
    Vec<Vec<Pt>>,
    MapError,
>)
    requires
        pts_ok(pl@),
        polygon_ok(*sb),
        polygon_ok(*eb),
    ensures
        r is Err <==> degenerate(pl@),
        r is Err ==> r->Err_0 == MapError::DegenerateGeometry,
        r is Ok ==> r->Ok_0@.len() == specs@.len(),
        r is Ok ==> forall|l: int|
            0 <= l < specs@.len() ==> trimmed_ok(pl@, (#[trigger] r->Ok_0@[l])@, sb.pts@, eb.pts@)
                && pts_ok(r->Ok_0@[l]@) && r->Ok_0@[l]@.len() >= 1,
        r is Ok && normal_possible(pl@, sb.pts@, eb.pts@) ==> forall|l: int|
            0 <= l < specs@.len() ==> prefix_suffix_trim(
                pl@,
                (#[trigger] r->Ok_0@[l])@,
                sb.pts@,
                eb.pts@,
            ),
        r is Ok && !normal_possible(pl@, sb.pts@, eb.pts@) ==> forall|l: int|
            0 <= l < specs@.len() ==> snap_result((#[trigger] r->Ok_0@[l])@, sb.pts@, eb.pts@),
{
    if is_degenerate(pl) {
        return Result::Err(MapError::DegenerateGeometry);
    }
    let mut out: Vec<Vec<Pt>> = Vec::new();
    let mut l: usize = 0;
    while l < specs.len()
        invariant
            l <= specs@.len(),
            out@.len() == l,
            pts_ok(pl@),
            polygon_ok(*sb),
            polygon_ok(*eb),
            !degenerate(pl@),
            forall|t: int|
                0 <= t < l ==> trimmed_ok(pl@, (#[trigger] out@[t])@, sb.pts@, eb.pts@) && pts_ok(
                    out@[t]@,
                ) && out@[t]@.len() >= 1,
            normal_possible(pl@, sb.pts@, eb.pts@) ==> forall|t: int|
                0 <= t < l ==> prefix_suffix_trim(pl@, (#[trigger] out@[t])@, sb.pts@, eb.pts@),
            !normal_possible(pl@, sb.pts@, eb.pts@) ==> forall|t: int|
                0 <= t < l ==> snap_result((#[trigger] out@[t])@, sb.pts@, eb.pts@),
        decreases specs@.len() - l,
    {
        match trim_polyline(pl, sb, eb) {
            Result::Ok(t) => {
                out.push(t);
            },
            Result::Err(_) => {
                proof {
                    // unreachable: the centerline was checked non-degenerate
                    assert(false);
                }
            },
        }
        l = l + 1;
    }
    Result::Ok(out)
}

} // verus!
