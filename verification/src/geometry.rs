//! Exact 2D geometry on fixed-point integer coordinates.
//!
//! Every coordinate is an `i64` bounded by [`MAX_COORD`]; under that bound
//! each predicate here (orientation, point-in-polygon, segment crossing,
//! nearest point on a segment) is computed exactly, with overflow ruled out
//! by proof rather than by runtime checks.

use vstd::prelude::*;
use vstd::arithmetic::div_mod::{lemma_div_multiples_vanish, lemma_div_is_ordered, lemma_div_pos_is_pos};
use vstd::arithmetic::mul::lemma_mul_inequality;

verus! {

/// Bound on the absolute value of any coordinate the library accepts.
pub const MAX_COORD: i64 = 100_000_000;

/// A point (or a direction vector) in fixed-point map units.
#[derive(Clone, Copy, PartialEq, Eq, Structural, Debug)]
pub struct Pt {
    pub x: i64,
    pub y: i64,
}

/// A simple polygon given as its ring of vertices (implicitly closed).
#[derive(Clone, Debug)]
pub struct Polygon {
    pub pts: Vec<Pt>,
}

pub open spec fn pt_ok(p: Pt) -> bool {
    -MAX_COORD <= p.x <= MAX_COORD && -MAX_COORD <= p.y <= MAX_COORD
}

pub open spec fn pts_ok(s: Seq<Pt>) -> bool {
    forall|i: int| 0 <= i < s.len() ==> pt_ok(#[trigger] s[i])
}

/// A usable boundary ring: at least three vertices, all in range.
pub open spec fn polygon_ok(poly: Polygon) -> bool {
    poly.pts@.len() >= 3 && pts_ok(poly.pts@)
}

/// Twice the signed area of the triangle `(o, a, b)`: positive when `b` lies
/// to the left of the directed line `o -> a`.
pub open spec fn cross3_spec(o: Pt, a: Pt, b: Pt) -> int {
    (a.x - o.x) * (b.y - o.y) - (a.y - o.y) * (b.x - o.x)
}

pub open spec fn dist_sq_spec(p: Pt, q: Pt) -> int {
    (p.x - q.x) * (p.x - q.x) + (p.y - q.y) * (p.y - q.y)
}

/// Bounds a product of two coordinate differences.
pub(crate) proof fn lemma_coord_mul_bound(a: int, b: int)
    by (nonlinear_arith)
    requires
        -200_000_000 <= a <= 200_000_000,
        -200_000_000 <= b <= 200_000_000,
    ensures
        -40_000_000_000_000_000 <= a * b <= 40_000_000_000_000_000,
{
}

/// Orientation test, exact under the coordinate bound.
pub fn cross3(o: Pt, a: Pt, b: Pt) -> (r: i64)
    requires
        pt_ok(o),
        pt_ok(a),
        pt_ok(b),
    ensures
        r == cross3_spec(o, a, b),
        -80_000_000_000_000_000 <= r <= 80_000_000_000_000_000,
{
    proof {
        lemma_coord_mul_bound(a.x - o.x, b.y - o.y);
        lemma_coord_mul_bound(a.y - o.y, b.x - o.x);
    }
    (a.x - o.x) * (b.y - o.y) - (a.y - o.y) * (b.x - o.x)
}

/// Squared distance, exact under the coordinate bound.
pub fn dist_sq(p: Pt, q: Pt) -> (r: i64)
    requires
        pt_ok(p),
        pt_ok(q),
    ensures
        r == dist_sq_spec(p, q),
        0 <= r,
{
    proof {
        lemma_coord_mul_bound(p.x - q.x, p.x - q.x);
        lemma_coord_mul_bound(p.y - q.y, p.y - q.y);
        assert((p.x - q.x) * (p.x - q.x) >= 0) by (nonlinear_arith);
        assert((p.y - q.y) * (p.y - q.y) >= 0) by (nonlinear_arith);
    }
    (p.x - q.x) * (p.x - q.x) + (p.y - q.y) * (p.y - q.y)
}

/// The second endpoint of the polygon edge that starts at vertex `i`.
pub open spec fn next_vertex(poly: Seq<Pt>, i: int) -> Pt {
    if i + 1 == poly.len() {
        poly[0]
    } else {
        poly[i + 1]
    }
}

/// The edge `a -> b` straddles the horizontal line through `p` under the
/// half-open rule that makes the even-odd count well defined on vertices.
pub open spec fn edge_straddles(a: Pt, b: Pt, p: Pt) -> bool {
    (a.y <= p.y && p.y < b.y) || (b.y <= p.y && p.y < a.y)
}

/// Given a straddling edge, it crosses that horizontal line strictly east of
/// `p` (sign-only form of the crossing-abscissa comparison).
pub open spec fn edge_east(a: Pt, b: Pt, p: Pt) -> bool {
    if b.y > a.y {
        cross3_spec(a, b, p) > 0
    } else {
        cross3_spec(a, b, p) < 0
    }
}

pub open spec fn edge_hits(a: Pt, b: Pt, p: Pt) -> bool {
    edge_straddles(a, b, p) && edge_east(a, b, p)
}

/// How many of the first `k` edges of the ring cross the eastward ray from
/// `p`.
pub open spec fn pip_count(poly: Seq<Pt>, p: Pt, k: int) -> int
    decreases k,
{
    if k <= 0 {
        0
    } else {
        pip_count(poly, p, k - 1) + if edge_hits(poly[k - 1], next_vertex(poly, k - 1), p) {
            1int
        } else {
            0int
        }
    }
}

/// Even-odd membership: `p` is inside the ring iff the eastward ray from `p`
/// crosses an odd number of edges.
pub open spec fn inside_polygon(poly: Seq<Pt>, p: Pt) -> bool {
    pip_count(poly, p, poly.len() as int) % 2 == 1
}

/// Exact even-odd point-in-polygon test.
pub fn point_in_polygon(poly: &Polygon, p: Pt) -> (r: bool)
    requires
        polygon_ok(*poly),
        pt_ok(p),
    ensures
        r == inside_polygon(poly.pts@, p),
{
    let n = poly.pts.len();
    let mut count: usize = 0;
    let mut k: usize = 0;
    while k < n
        invariant
            k <= n,
            n == poly.pts@.len(),
            polygon_ok(*poly),
            pt_ok(p),
            count <= k,
            count as int == pip_count(poly.pts@, p, k as int),
        decreases n - k,
    {
        let a = poly.pts[k];
        let b = if k + 1 == n {
            poly.pts[0]
        } else {
            poly.pts[k + 1]
        };
        if (a.y <= p.y && p.y < b.y) || (b.y <= p.y && p.y < a.y) {
            let t = cross3(a, b, p);
            let east = if b.y > a.y {
                t > 0
            } else {
                t < 0
            };
            if east {
                count = count + 1;
            }
        }
        k = k + 1;
    }
    count % 2 == 1
}

/// Two segments cross properly: each separates the other's endpoints
/// strictly. Touching at an endpoint or collinear overlap does not count.
pub open spec fn segs_cross_spec(a: Pt, b: Pt, c: Pt, d: Pt) -> bool {
    let o1 = cross3_spec(a, b, c);
    let o2 = cross3_spec(a, b, d);
    let o3 = cross3_spec(c, d, a);
    let o4 = cross3_spec(c, d, b);
    ((o1 > 0 && o2 < 0) || (o1 < 0 && o2 > 0)) && ((o3 > 0 && o4 < 0) || (o3 < 0 && o4 > 0))
}

/// Exact proper-crossing test for the segments `a-b` and `c-d`.
pub fn segs_cross(a: Pt, b: Pt, c: Pt, d: Pt) -> (r: bool)
    requires
        pt_ok(a),
        pt_ok(b),
        pt_ok(c),
        pt_ok(d),
    ensures
        r == segs_cross_spec(a, b, c, d),
{
    let o1 = cross3(a, b, c);
    let o2 = cross3(a, b, d);
    let o3 = cross3(c, d, a);
    let o4 = cross3(c, d, b);
    ((o1 > 0 && o2 < 0) || (o1 < 0 && o2 > 0)) && ((o3 > 0 && o4 < 0) || (o3 < 0 && o4 > 0))
}

/// The segment `a-b` properly crosses some edge of the ring.
pub open spec fn seg_hits_ring(a: Pt, b: Pt, poly: Seq<Pt>) -> bool {
    exists|k: int|
        0 <= k < poly.len() && segs_cross_spec(a, b, #[trigger] poly[k], next_vertex(poly, k))
}

/// The coordinate `num/den` of the way from `a` to `b`, rounded toward `a`.
pub open spec fn interp_spec(a: int, b: int, num: int, den: int) -> int {
    if b >= a {
        a + ((b - a) * num) / den
    } else {
        a - ((a - b) * num) / den
    }
}

/// Bounds the wide product used by `interp` before its division.
proof fn lemma_wide_mul_bound(d: int, num: int)
    by (nonlinear_arith)
    requires
        0 <= d <= 200_000_000,
        0 <= num <= 0x7fff_ffff_ffff_ffff,
    ensures
        0 <= d * num <= 2_000_000_000_000_000_000_000_000_000,
{
}

proof fn lemma_scale_bounded(d: int, num: int, den: int)
    requires
        0 <= d,
        0 <= num <= den,
        0 < den,
    ensures
        0 <= (d * num) / den <= d,
{
    vstd::arithmetic::mul::lemma_mul_nonnegative(d, num);
    lemma_div_pos_is_pos(d * num, den);
    lemma_mul_inequality(num, den, d);
    vstd::arithmetic::mul::lemma_mul_is_commutative(num, d);
    vstd::arithmetic::mul::lemma_mul_is_commutative(den, d);
    lemma_div_is_ordered(d * num, d * den, den);
    lemma_div_multiples_vanish(d, den);
    vstd::arithmetic::mul::lemma_mul_is_commutative(d, den);
}

fn interp(a: i64, b: i64, num: i64, den: i64) -> (r: i64)
    requires
        -MAX_COORD <= a <= MAX_COORD,
        -MAX_COORD <= b <= MAX_COORD,
        0 < den,
        0 <= num <= den,
    ensures
        r == interp_spec(a as int, b as int, num as int, den as int),
        a <= b ==> a <= r <= b,
        b <= a ==> b <= r <= a,
{
    if b >= a {
        let d = (b - a) as u128;
        proof {
            lemma_wide_mul_bound(d as int, num as int);
        }
        let q = (d * (num as u128)) / (den as u128);
        proof {
            lemma_scale_bounded(b - a, num as int, den as int);
        }
        a + (q as i64)
    } else {
        let d = (a - b) as u128;
        proof {
            lemma_wide_mul_bound(d as int, num as int);
        }
        let q = (d * (num as u128)) / (den as u128);
        proof {
            lemma_scale_bounded(a - b, num as int, den as int);
        }
        a - (q as i64)
    }
}

/// The point `num/den` of the way from `a` to `b`, rounded to the grid;
/// always inside the bounding box of `a` and `b`.
pub open spec fn lerp_spec(a: Pt, b: Pt, num: int, den: int) -> Pt {
    Pt { x: interp_spec(a.x as int, b.x as int, num, den) as i64, y: interp_spec(
        a.y as int,
        b.y as int,
        num,
        den,
    ) as i64 }
}

/// The intersection point of the properly crossing segments `a-b` and
/// `c-d`, rounded to the grid toward `a`.
pub open spec fn seg_intersection_spec(a: Pt, b: Pt, c: Pt, d: Pt) -> Pt {
    let o3 = cross3_spec(c, d, a);
    let o4 = cross3_spec(c, d, b);
    if o3 >= 0 {
        lerp_spec(a, b, o3, o3 - o4)
    } else {
        lerp_spec(a, b, -o3, o4 - o3)
    }
}

/// Computes where `a-b` crosses `c-d`; the result stays inside the bounding
/// box of `a` and `b`.
pub fn seg_intersection(a: Pt, b: Pt, c: Pt, d: Pt) -> (r: Pt)
    requires
        pt_ok(a),
        pt_ok(b),
        pt_ok(c),
        pt_ok(d),
        segs_cross_spec(a, b, c, d),
    ensures
        r == seg_intersection_spec(a, b, c, d),
        pt_ok(r),
        a.x <= b.x ==> a.x <= r.x <= b.x,
        b.x <= a.x ==> b.x <= r.x <= a.x,
        a.y <= b.y ==> a.y <= r.y <= b.y,
        b.y <= a.y ==> b.y <= r.y <= a.y,
{
    let o3 = cross3(c, d, a);
    let o4 = cross3(c, d, b);
    if o3 >= 0 {
        let x = interp(a.x, b.x, o3, o3 - o4);
        let y = interp(a.y, b.y, o3, o3 - o4);
        Pt { x, y }
    } else {
        let x = interp(a.x, b.x, -o3, o4 - o3);
        let y = interp(a.y, b.y, -o3, o4 - o3);
        Pt { x, y }
    }
}

/// The nearest grid point to `p` on the segment `a-b`: the clamped
/// perpendicular projection, rounded. For a degenerate segment it is `a`.
pub open spec fn nearest_on_seg_spec(p: Pt, a: Pt, b: Pt) -> Pt {
    let den = dist_sq_spec(a, b);
    if den == 0 {
        a
    } else {
        let t = (p.x - a.x) * (b.x - a.x) + (p.y - a.y) * (b.y - a.y);
        let num = if t < 0 {
            0
        } else if t > den {
            den
        } else {
            t
        };
        lerp_spec(a, b, num, den)
    }
}

/// Computes the clamped, rounded projection of `p` onto the segment `a-b`.
pub fn nearest_on_seg(p: Pt, a: Pt, b: Pt) -> (r: Pt)
    requires
        pt_ok(p),
        pt_ok(a),
        pt_ok(b),
    ensures
        r == nearest_on_seg_spec(p, a, b),
        pt_ok(r),
{
    let den = dist_sq(a, b);
    if den == 0 {
        return a;
    }
    proof {
        lemma_coord_mul_bound(p.x - a.x, b.x - a.x);
        lemma_coord_mul_bound(p.y - a.y, b.y - a.y);
    }
    let t = (p.x - a.x) * (b.x - a.x) + (p.y - a.y) * (b.y - a.y);
    let num = if t < 0 {
        0
    } else if t > den {
        den
    } else {
        t
    };
    let x = interp(a.x, b.x, num, den);
    let y = interp(a.y, b.y, num, den);
    Pt { x, y }
}

} // verus!
