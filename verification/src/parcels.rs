//! Grouping of parcels into blocks of mutually adjacent parcels.
//!
//! Two parcels are adjacent when their polygons come within a small
//! tolerance of each other (some vertex of one within the tolerance of some
//! vertex of the other). Blocks are the connected components of that
//! relation, and every parcel's block id is the least index in its
//! component: a stable order derived from the parcel identifiers, so reruns
//! on identical input yield identical ids.

use vstd::prelude::*;
use crate::geometry::{Pt, Polygon, pt_ok, polygon_ok, dist_sq, dist_sq_spec};

verus! {

pub open spec fn parcels_ok(ps: Seq<Polygon>) -> bool {
    forall|i: int| 0 <= i < ps.len() ==> polygon_ok(#[trigger] ps[i])
}

/// Parcels `i` and `j` touch within the tolerance: some vertex of one lies
/// within it of some vertex of the other. Symmetric by the symmetry of
/// distance.
pub open spec fn adjacent_spec(ps: Seq<Polygon>, tol_sq: int, i: int, j: int) -> bool {
    &&& 0 <= i < ps.len()
    &&& 0 <= j < ps.len()
    &&& i != j
    &&& exists|a: int, b: int|
        0 <= a < ps[i].pts@.len() && 0 <= b < ps[j].pts@.len() && dist_sq_spec(
            #[trigger] ps[i].pts@[a],
            #[trigger] ps[j].pts@[b],
        ) <= tol_sq
}

/// Adjacency is symmetric.
pub proof fn lemma_adjacent_symmetric(ps: Seq<Polygon>, tol_sq: int, i: int, j: int)
    ensures
        adjacent_spec(ps, tol_sq, i, j) == adjacent_spec(ps, tol_sq, j, i),
{
    assert forall|p: Pt, q: Pt| dist_sq_spec(p, q) == dist_sq_spec(q, p) by {
        assert((p.x - q.x) * (p.x - q.x) == (q.x - p.x) * (q.x - p.x)) by (nonlinear_arith);
        assert((p.y - q.y) * (p.y - q.y) == (q.y - p.y) * (q.y - p.y)) by (nonlinear_arith);
    }
    if adjacent_spec(ps, tol_sq, i, j) {
        let (a, b) = choose|a: int, b: int|
            0 <= a < ps[i].pts@.len() && 0 <= b < ps[j].pts@.len() && dist_sq_spec(
                #[trigger] ps[i].pts@[a],
                #[trigger] ps[j].pts@[b],
            ) <= tol_sq;
        assert(dist_sq_spec(ps[j].pts@[b], ps[i].pts@[a]) <= tol_sq);
    }
    if adjacent_spec(ps, tol_sq, j, i) {
        let (a, b) = choose|a: int, b: int|
            0 <= a < ps[j].pts@.len() && 0 <= b < ps[i].pts@.len() && dist_sq_spec(
                #[trigger] ps[j].pts@[a],
                #[trigger] ps[i].pts@[b],
            ) <= tol_sq;
        assert(dist_sq_spec(ps[i].pts@[b], ps[j].pts@[a]) <= tol_sq);
    }
}

/// `path` is a chain of pairwise-adjacent parcels from `i` to `j`.
pub open spec fn path_connects(ps: Seq<Polygon>, tol_sq: int, path: Seq<int>, i: int, j: int) -> bool {
    &&& path.len() >= 1
    &&& path[0] == i
    &&& path[path.len() - 1] == j
    &&& (forall|k: int| 0 <= k < path.len() ==> 0 <= #[trigger] path[k] < ps.len())
    &&& (forall|k: int|
        0 <= k < path.len() - 1 ==> adjacent_spec(ps, tol_sq, #[trigger] path[k], path[k + 1]))
}

/// Parcels `i` and `j` lie in one block: an adjacency chain joins them.
pub open spec fn connected_spec(ps: Seq<Polygon>, tol_sq: int, i: int, j: int) -> bool {
    exists|path: Seq<int>| path_connects(ps, tol_sq, path, i, j)
}

pub proof fn lemma_connected_refl(ps: Seq<Polygon>, tol_sq: int, i: int)
    requires
        0 <= i < ps.len(),
    ensures
        connected_spec(ps, tol_sq, i, i),
{
    let path = seq![i];
    assert(path_connects(ps, tol_sq, path, i, i));
}

pub proof fn lemma_connected_adj(ps: Seq<Polygon>, tol_sq: int, i: int, j: int)
    requires
        adjacent_spec(ps, tol_sq, i, j),
    ensures
        connected_spec(ps, tol_sq, i, j),
{
    let path = seq![i, j];
    assert(path_connects(ps, tol_sq, path, i, j));
}

/// Connectivity is symmetric: reverse the chain.
pub proof fn lemma_connected_sym(ps: Seq<Polygon>, tol_sq: int, i: int, j: int)
    requires
        connected_spec(ps, tol_sq, i, j),
    ensures
        connected_spec(ps, tol_sq, j, i),
{
    let path = choose|path: Seq<int>| path_connects(ps, tol_sq, path, i, j);
    let n = path.len() as int;
    let rev = Seq::new(path.len(), |k: int| path[n - 1 - k]);
    assert forall|k: int| 0 <= k < rev.len() - 1 implies adjacent_spec(
        ps,
        tol_sq,
        #[trigger] rev[k],
        rev[k + 1],
    ) by {
        assert(adjacent_spec(ps, tol_sq, path[n - 2 - k], path[n - 1 - k]));
        lemma_adjacent_symmetric(ps, tol_sq, path[n - 2 - k], path[n - 1 - k]);
    }
    assert(path_connects(ps, tol_sq, rev, j, i));
}

/// Connectivity is transitive: concatenate the chains.
pub proof fn lemma_connected_trans(ps: Seq<Polygon>, tol_sq: int, i: int, j: int, k: int)
    requires
        connected_spec(ps, tol_sq, i, j),
        connected_spec(ps, tol_sq, j, k),
    ensures
        connected_spec(ps, tol_sq, i, k),
{
    let p1 = choose|path: Seq<int>| path_connects(ps, tol_sq, path, i, j);
    let p2 = choose|path: Seq<int>| path_connects(ps, tol_sq, path, j, k);
    let joined = p1 + p2.drop_first();
    assert(joined.len() == p1.len() + p2.len() - 1);
    assert forall|t: int| 0 <= t < joined.len() - 1 implies adjacent_spec(
        ps,
        tol_sq,
        #[trigger] joined[t],
        joined[t + 1],
    ) by {
        if t < p1.len() - 1 {
            assert(joined[t] == p1[t] && joined[t + 1] == p1[t + 1]);
        } else if t == p1.len() - 1 {
            if p2.len() >= 2 {
                assert(joined[t] == p1[t] == j && joined[t + 1] == p2.drop_first()[t + 1
                    - p1.len()] == p2[1]);
                assert(adjacent_spec(ps, tol_sq, p2[0], p2[1]));
            }
        } else {
            assert(joined[t] == p2[t + 1 - p1.len()] && joined[t + 1] == p2[t + 2 - p1.len()]);
            assert(adjacent_spec(ps, tol_sq, p2[t - p1.len() + 1], p2[t - p1.len() + 2]));
        }
    }
    assert(joined[joined.len() - 1] == if p2.len() >= 2 {
        p2[p2.len() - 1]
    } else {
        p1[p1.len() - 1]
    });
    assert(path_connects(ps, tol_sq, joined, i, k));
}

/// Exact adjacency test between two parcels.
#[verifier::loop_isolation(false)]
fn adjacent_exec(ps: &Vec<Polygon>, tol_sq: i64, i: usize, j: usize) -> (r: bool)
    requires
        parcels_ok(ps@),
        i < ps@.len(),
        j < ps@.len(),
    ensures
        r == adjacent_spec(ps@, tol_sq as int, i as int, j as int),
{
    if i == j {
        return false;
    }
    let pi = &ps[i];
    let pj = &ps[j];
    let mut a: usize = 0;
    while a < pi.pts.len()
        invariant
            a <= pi.pts@.len(),
            forall|x: int, y: int|
                0 <= x < a && 0 <= y < pj.pts@.len() ==> dist_sq_spec(
                    #[trigger] pi.pts@[x],
                    #[trigger] pj.pts@[y],
                ) > tol_sq,
        decreases pi.pts@.len() - a,
    {
        let mut b: usize = 0;
        while b < pj.pts.len()
            invariant
                b <= pj.pts@.len(),
                forall|y: int|
                    0 <= y < b ==> dist_sq_spec(pi.pts@[a as int], #[trigger] pj.pts@[y]) > tol_sq,
            decreases pj.pts@.len() - b,
        {
            if dist_sq(pi.pts[a], pj.pts[b]) <= tol_sq {
                return true;
            }
            b = b + 1;
        }
        a = a + 1;
    }
    false
}

pub open spec fn sum_labels(s: Seq<usize>) -> int
    decreases s.len(),
{
    if s.len() == 0 {
        0
    } else {
        sum_labels(s.drop_last()) + s.last()
    }
}

proof fn lemma_sum_labels_nonneg(s: Seq<usize>)
    ensures
        0 <= sum_labels(s),
    decreases s.len(),
{
    if s.len() > 0 {
        lemma_sum_labels_nonneg(s.drop_last());
    }
}

proof fn lemma_sum_labels_update(s: Seq<usize>, i: int, v: usize)
    requires
        0 <= i < s.len(),
    ensures
        sum_labels(s.update(i, v)) == sum_labels(s) - s[i] + v,
    decreases s.len(),
{
    if i + 1 == s.len() {
        assert(s.update(i, v).drop_last() =~= s.drop_last());
        assert(s.update(i, v).last() == v);
    } else {
        assert(s.update(i, v).drop_last() =~= s.drop_last().update(i, v));
        assert(s.update(i, v).last() == s.last());
        lemma_sum_labels_update(s.drop_last(), i, v);
    }
}

/// Every label points at an index of the same component, never above its
/// own index.
pub open spec fn labels_sound(ps: Seq<Polygon>, tol_sq: int, labels: Seq<usize>) -> bool {
    &&& labels.len() == ps.len()
    &&& (forall|i: int|
        0 <= i < labels.len() ==> (#[trigger] labels[i]) <= i && connected_spec(
            ps,
            tol_sq,
            i,
            labels[i] as int,
        ))
}

/// No adjacent pair is left with differing labels.
pub open spec fn merged(ps: Seq<Polygon>, tol_sq: int, labels: Seq<usize>) -> bool {
    forall|a: int, b: int| #[trigger] adjacent_spec(ps, tol_sq, a, b) ==> labels[a] == labels[b]
}

proof fn lemma_merged_path(
    ps: Seq<Polygon>,
    tol_sq: int,
    labels: Seq<usize>,
    path: Seq<int>,
    i: int,
    j: int,
)
    requires
        merged(ps, tol_sq, labels),
        path_connects(ps, tol_sq, path, i, j),
    ensures
        labels[i] == labels[j],
    decreases path.len(),
{
    if path.len() > 1 {
        assert(adjacent_spec(ps, tol_sq, path[0], path[1]));
        let rest = path.drop_first();
        assert(path_connects(ps, tol_sq, rest, path[1], j));
        lemma_merged_path(ps, tol_sq, labels, rest, path[1], j);
    }
}

/// The full specification of the produced block ids: each is the least
/// parcel index connected to its parcel, so connected parcels share an id
/// and unconnected ones never do.
pub open spec fn valid_block_ids(ps: Seq<Polygon>, tol_sq: int, r: Seq<usize>) -> bool {
    &&& r.len() == ps.len()
    &&& (forall|i: int|
        0 <= i < r.len() ==> (#[trigger] r[i]) <= i && connected_spec(ps, tol_sq, i, r[i] as int))
    &&& (forall|i: int, j: int|
        0 <= i < r.len() && 0 <= j < r.len() && #[trigger] connected_spec(ps, tol_sq, i, j)
            ==> r[i] == r[j] && r[i] <= j)
}

/// One merging pass: every adjacent pair with differing labels is pulled
/// down to the smaller label. Reports whether anything changed; an
/// unchanged pass certifies the fixpoint.
#[verifier::loop_isolation(false)]
fn merge_pass(ps: &Vec<Polygon>, tol_sq: i64, labels: &mut Vec<usize>) -> (changed: bool)
    requires
        parcels_ok(ps@),
        labels_sound(ps@, tol_sq as int, old(labels)@),
    ensures
        labels_sound(ps@, tol_sq as int, final(labels)@),
        changed ==> sum_labels(final(labels)@) < sum_labels(old(labels)@),
        !changed ==> final(labels)@ == old(labels)@ && merged(ps@, tol_sq as int, final(labels)@),
{
    let mut changed = false;
    let n = ps.len();
    let mut i: usize = 0;
    while i < n
        invariant
            i <= n,
            labels_sound(ps@, tol_sq as int, labels@),
            changed ==> sum_labels(labels@) < sum_labels(old(labels)@),
            !changed ==> labels@ == old(labels)@,
            !changed ==> forall|a: int, b: int|
                0 <= a < i && #[trigger] adjacent_spec(ps@, tol_sq as int, a, b) ==> labels@[a]
                    == labels@[b],
        decreases n - i,
    {
        let mut j: usize = 0;
        while j < n
            invariant
                j <= n,
                labels_sound(ps@, tol_sq as int, labels@),
                changed ==> sum_labels(labels@) < sum_labels(old(labels)@),
                !changed ==> labels@ == old(labels)@,
                !changed ==> forall|a: int, b: int|
                    0 <= a < i && #[trigger] adjacent_spec(ps@, tol_sq as int, a, b) ==> labels@[a]
                        == labels@[b],
                !changed ==> forall|b: int|
                    0 <= b < j && #[trigger] adjacent_spec(ps@, tol_sq as int, i as int, b)
                        ==> labels@[i as int] == labels@[b],
            decreases n - j,
        {
            if adjacent_exec(ps, tol_sq, i, j) {
                let li = labels[i];
                let lj = labels[j];
                if li != lj {
                    let m = if li < lj {
                        li
                    } else {
                        lj
                    };
                    proof {
                        let gi = i as int;
                        let gj = j as int;
                        lemma_connected_adj(ps@, tol_sq as int, gi, gj);
                        lemma_adjacent_symmetric(ps@, tol_sq as int, gi, gj);
                        lemma_connected_adj(ps@, tol_sq as int, gj, gi);
                        // both ends are connected to the shared new label
                        lemma_connected_trans(ps@, tol_sq as int, gi, gj, lj as int);
                        lemma_connected_trans(ps@, tol_sq as int, gj, gi, li as int);
                        let s0 = labels@;
                        lemma_sum_labels_update(s0, gi, m);
                        lemma_sum_labels_update(s0.update(gi, m), gj, m);
                    }
                    labels.set(i, m);
                    labels.set(j, m);
                    changed = true;
                }
            }
            j = j + 1;
        }
        i = i + 1;
    }
    changed
}

/// Clusters parcels into blocks: the returned entry of each parcel is its
/// block id, the least parcel index reachable from it through the adjacency
/// relation at the given tolerance.
#[verifier::loop_isolation(false)]
pub fn group_parcels(parcels: &Vec<Polygon>, tolerance: i64) -> (r: Vec<usize>)
    requires
        parcels_ok(parcels@),
        0 <= tolerance <= 200_000_000,
    ensures
        valid_block_ids(parcels@, (tolerance * tolerance) as int, r@),
{
    proof {
        crate::geometry::lemma_coord_mul_bound(tolerance as int, tolerance as int);
    }
    let tol_sq = tolerance * tolerance;
    let n = parcels.len();
    let mut labels: Vec<usize> = Vec::new();
    let mut i: usize = 0;
    while i < n
        invariant
            i <= n,
            labels@.len() == i,
            forall|k: int| 0 <= k < i ==> #[trigger] labels@[k] == k,
        decreases n - i,
    {
        labels.push(i);
        i = i + 1;
    }
    proof {
        assert forall|k: int| 0 <= k < labels@.len() implies #[trigger] labels@[k] <= k
            && connected_spec(parcels@, tol_sq as int, k, labels@[k] as int) by {
            lemma_connected_refl(parcels@, tol_sq as int, k);
        }
    }
    loop
        invariant
            labels_sound(parcels@, tol_sq as int, labels@),
        decreases sum_labels(labels@),
    {
        proof {
            lemma_sum_labels_nonneg(labels@);
        }
        let changed = merge_pass(parcels, tol_sq, &mut labels);
        proof {
            lemma_sum_labels_nonneg(labels@);
        }
        if !changed {
            break ;
        }
    }
    proof {
        assert forall|a: int, b: int|
            0 <= a < labels@.len() && 0 <= b < labels@.len() && connected_spec(
                parcels@,
                tol_sq as int,
                a,
                b,
            ) implies #[trigger] labels@[a] == #[trigger] labels@[b] && labels@[a] <= b by {
            let path = choose|path: Seq<int>| path_connects(parcels@, tol_sq as int, path, a, b);
            lemma_merged_path(parcels@, tol_sq as int, labels@, path, a, b);
        }
    }
    labels
}

/// Reruns on identical input yield identical block ids: the specification
/// `valid_block_ids` has exactly one solution.
pub proof fn lemma_block_ids_deterministic(
    ps: Seq<Polygon>,
    tol_sq: int,
    r1: Seq<usize>,
    r2: Seq<usize>,
)
    requires
        valid_block_ids(ps, tol_sq, r1),
        valid_block_ids(ps, tol_sq, r2),
    ensures
        r1 =~= r2,
{
    assert forall|i: int| 0 <= i < r1.len() implies r1[i] == r2[i] by {
        assert(connected_spec(ps, tol_sq, i, r1[i] as int));
        assert(connected_spec(ps, tol_sq, i, r2[i] as int));
        assert(r2[i] <= r1[i] as int);
        assert(r1[i] <= r2[i] as int);
    }
}

/// Adjacent parcels always land in one block.
pub proof fn lemma_adjacent_same_block(
    ps: Seq<Polygon>,
    tol_sq: int,
    r: Seq<usize>,
    i: int,
    j: int,
)
    requires
        valid_block_ids(ps, tol_sq, r),
        adjacent_spec(ps, tol_sq, i, j),
    ensures
        r[i] == r[j],
{
    lemma_connected_adj(ps, tol_sq, i, j);
}

/// Sharing a block id means an adjacency chain joins the two parcels: block
/// membership is transitive connectivity, nothing looser.
pub proof fn lemma_same_block_connected(
    ps: Seq<Polygon>,
    tol_sq: int,
    r: Seq<usize>,
    i: int,
    j: int,
)
    requires
        valid_block_ids(ps, tol_sq, r),
        0 <= i < r.len(),
        0 <= j < r.len(),
        r[i] == r[j],
    ensures
        connected_spec(ps, tol_sq, i, j),
{
    assert(connected_spec(ps, tol_sq, i, r[i] as int));
    assert(connected_spec(ps, tol_sq, j, r[j] as int));
    lemma_connected_sym(ps, tol_sq, j, r[j] as int);
    lemma_connected_trans(ps, tol_sq, i, r[i] as int, j);
}

} // verus!
