//! Derivation of a road's ordered lane layout from its tags.
//!
//! `get_lane_specs` is a pure function of the tag set. Missing or
//! contradictory tags fall back to a documented default policy (one driving
//! lane per direction, sidewalks on both sides unless marked absent) instead
//! of failing; only a cross-section that the computed lanes cannot fit,
//! beyond the caller's tolerance, is an error.
//!
//! Produced order is strictly left-to-right as seen standing at the road's
//! start looking along its forward direction: on a two-way road every
//! backward lane precedes every forward lane.

use vstd::prelude::*;
use crate::MapError;

verus! {

/// Standard width of one driving lane, in map units.
pub const DRIVING_WIDTH: u32 = 350;
/// Standard width of one bus lane, in map units.
pub const BUS_WIDTH: u32 = 350;
/// Standard width of one bike lane, in map units.
pub const BIKE_WIDTH: u32 = 150;
/// Standard width of one parking lane, in map units.
pub const PARKING_WIDTH: u32 = 250;
/// Standard width of one sidewalk, in map units.
pub const SIDEWALK_WIDTH: u32 = 200;
/// Declared driving-lane counts are clamped to this many per direction.
pub const MAX_DRIVING_PER_DIR: u8 = 8;

#[derive(Clone, Copy, PartialEq, Eq, Structural, Debug)]
pub enum LaneType {
    Driving,
    Biking,
    Parking,
    Sidewalk,
    Bus,
}

/// Travel direction relative to the road's canonical orientation.
#[derive(Clone, Copy, PartialEq, Eq, Structural, Debug)]
pub enum Direction {
    Fwd,
    Back,
}

/// One lane of a road's cross-section, in left-to-right order.
#[derive(Clone, Copy, PartialEq, Eq, Structural, Debug)]
pub struct LaneSpec {
    pub lane_type: LaneType,
    pub dir: Direction,
    pub width: u32,
}

/// The tag fields this generator reads. `None` means the tag is absent.
#[derive(Clone, Copy, Debug)]
pub struct RoadTags {
    pub oneway: bool,
    /// Declared driving-lane count in the forward direction.
    pub driving_fwd: Option<u8>,
    /// Declared driving-lane count in the backward direction; ignored on a
    /// one-way road (a contradictory tag).
    pub driving_back: Option<u8>,
    pub bike_lanes: bool,
    pub parking_lanes: bool,
    pub bus_lanes: bool,
    /// `None` defaults to sidewalks on both sides.
    pub sidewalks: Option<bool>,
    /// The road's declared physical cross-section width, in map units.
    pub cross_section: u32,
}

pub open spec fn std_width(lt: LaneType) -> u32 {
    match lt {
        LaneType::Driving => DRIVING_WIDTH,
        LaneType::Biking => BIKE_WIDTH,
        LaneType::Parking => PARKING_WIDTH,
        LaneType::Sidewalk => SIDEWALK_WIDTH,
        LaneType::Bus => BUS_WIDTH,
    }
}

/// An absent count defaults to one lane; a declared count is clamped to
/// `1..=MAX_DRIVING_PER_DIR`.
pub open spec fn driving_count(declared: Option<u8>) -> int {
    match declared {
        Option::None => 1,
        Option::Some(n) => if n < 1 {
            1
        } else if n > MAX_DRIVING_PER_DIR {
            MAX_DRIVING_PER_DIR as int
        } else {
            n as int
        },
    }
}

/// Sidewalks are present on both sides unless explicitly marked absent.
pub open spec fn has_sidewalks(declared: Option<bool>) -> bool {
    match declared {
        Option::None => true,
        Option::Some(b) => b,
    }
}

pub open spec fn lane(lt: LaneType, dir: Direction) -> LaneSpec {
    LaneSpec { lane_type: lt, dir: dir, width: std_width(lt) }
}

pub open spec fn opt_lane(present: bool, lt: LaneType, dir: Direction) -> Seq<LaneSpec> {
    if present {
        seq![lane(lt, dir)]
    } else {
        seq![]
    }
}

pub open spec fn repeat_lane(lt: LaneType, dir: Direction, n: int) -> Seq<LaneSpec>
    decreases n,
{
    if n <= 0 {
        seq![]
    } else {
        repeat_lane(lt, dir, n - 1).push(lane(lt, dir))
    }
}

/// The backward (left) half of a two-way cross-section: outermost sidewalk
/// inward to the backward driving lanes.
pub open spec fn left_half(tags: RoadTags) -> Seq<LaneSpec> {
    opt_lane(has_sidewalks(tags.sidewalks), LaneType::Sidewalk, Direction::Back)
        + opt_lane(tags.parking_lanes, LaneType::Parking, Direction::Back)
        + opt_lane(tags.bike_lanes, LaneType::Biking, Direction::Back)
        + opt_lane(tags.bus_lanes, LaneType::Bus, Direction::Back)
        + repeat_lane(LaneType::Driving, Direction::Back, driving_count(tags.driving_back))
}

/// The forward (right) half of a cross-section: driving lanes outward to the
/// outermost sidewalk.
pub open spec fn right_half(tags: RoadTags) -> Seq<LaneSpec> {
    repeat_lane(LaneType::Driving, Direction::Fwd, driving_count(tags.driving_fwd))
        + opt_lane(tags.bus_lanes, LaneType::Bus, Direction::Fwd)
        + opt_lane(tags.bike_lanes, LaneType::Biking, Direction::Fwd)
        + opt_lane(tags.parking_lanes, LaneType::Parking, Direction::Fwd)
        + opt_lane(has_sidewalks(tags.sidewalks), LaneType::Sidewalk, Direction::Fwd)
}

/// The lane sequence implied by the tags before any width adjustment, in
/// left-to-right order. On a two-way road the left half carries backward
/// traffic, the right half forward traffic. On a one-way road every travel
/// lane points forward and only a left sidewalk remains of the left half.
pub open spec fn base_specs(tags: RoadTags) -> Seq<LaneSpec> {
    if tags.oneway {
        opt_lane(has_sidewalks(tags.sidewalks), LaneType::Sidewalk, Direction::Fwd) + right_half(
            tags,
        )
    } else {
        left_half(tags) + right_half(tags)
    }
}

/// Some lane of `s` is a driving lane.
pub open spec fn has_driving(s: Seq<LaneSpec>) -> bool {
    exists|i: int| 0 <= i < s.len() && (#[trigger] s[i]).lane_type is Driving
}

pub open spec fn sum_widths(s: Seq<LaneSpec>) -> int
    decreases s.len(),
{
    if s.len() == 0 {
        0
    } else {
        sum_widths(s.drop_last()) + s.last().width
    }
}

/// Index of the first driving lane of `s` (meaningful only when one exists).
pub open spec fn first_driving_idx(s: Seq<LaneSpec>) -> int
    decreases s.len(),
{
    if s.len() == 0 {
        0
    } else if s[0].lane_type is Driving {
        0
    } else {
        1 + first_driving_idx(s.drop_first())
    }
}

pub open spec fn widen_at(s: Seq<LaneSpec>, i: int, slack: int) -> Seq<LaneSpec> {
    s.update(
        i,
        LaneSpec {
            lane_type: s[i].lane_type,
            dir: s[i].dir,
            width: (s[i].width + slack) as u32,
        },
    )
}

/// The full policy: the standard widths must fit the declared cross-section
/// up to `tolerance`; any width left over is given to the first driving lane
/// so that the produced widths fill the cross-section exactly.
pub open spec fn lane_specs_of(tags: RoadTags, tolerance: u32) -> Result<Seq<LaneSpec>, MapError> {
    let base = base_specs(tags);
    let total = sum_widths(base);
    if total > tags.cross_section + tolerance {
        Result::Err(MapError::InvalidLaneConfig)
    } else if total < tags.cross_section && has_driving(base) {
        Result::Ok(widen_at(base, first_driving_idx(base), tags.cross_section - total))
    } else {
        Result::Ok(base)
    }
}

/// Strict left-to-right order: no forward lane ever precedes a backward
/// lane.
pub open spec fn left_to_right(s: Seq<LaneSpec>) -> bool {
    forall|i: int, j: int|
        0 <= i < j < s.len() ==> !((#[trigger] s[i]).dir is Fwd && (#[trigger] s[j]).dir is Back)
}

pub open spec fn all_dir(s: Seq<LaneSpec>, d: Direction) -> bool {
    forall|i: int| 0 <= i < s.len() ==> (#[trigger] s[i]).dir == d
}

pub open spec fn widths_bounded(s: Seq<LaneSpec>) -> bool {
    forall|i: int| 0 <= i < s.len() ==> (#[trigger] s[i]).width <= 350
}

proof fn lemma_repeat_lane_form(lt: LaneType, dir: Direction, n: int)
    ensures
        repeat_lane(lt, dir, n).len() == if n <= 0 {
            0int
        } else {
            n
        },
        forall|i: int|
            0 <= i < repeat_lane(lt, dir, n).len() ==> #[trigger] repeat_lane(lt, dir, n)[i]
                == lane(lt, dir),
    decreases n,
{
    if n > 0 {
        lemma_repeat_lane_form(lt, dir, n - 1);
    }
}

proof fn lemma_sum_take(s: Seq<LaneSpec>, i: int)
    requires
        0 <= i < s.len(),
    ensures
        sum_widths(s.take(i + 1)) == sum_widths(s.take(i)) + s[i].width,
{
    assert(s.take(i + 1).drop_last() =~= s.take(i));
    assert(s.take(i + 1).last() == s[i]);
}

proof fn lemma_sum_bound(s: Seq<LaneSpec>)
    requires
        widths_bounded(s),
    ensures
        0 <= sum_widths(s) <= 350 * s.len(),
    decreases s.len(),
{
    if s.len() > 0 {
        assert(widths_bounded(s.drop_last()));
        lemma_sum_bound(s.drop_last());
    }
}

proof fn lemma_sum_elem(s: Seq<LaneSpec>, i: int)
    requires
        0 <= i < s.len(),
    ensures
        s[i].width <= sum_widths(s),
    decreases s.len(),
{
    if i + 1 == s.len() {
        lemma_sum_nonneg(s.drop_last());
    } else {
        lemma_sum_elem(s.drop_last(), i);
    }
}

proof fn lemma_sum_nonneg(s: Seq<LaneSpec>)
    ensures
        0 <= sum_widths(s),
    decreases s.len(),
{
    if s.len() > 0 {
        lemma_sum_nonneg(s.drop_last());
    }
}

proof fn lemma_sum_update(s: Seq<LaneSpec>, i: int, v: LaneSpec)
    requires
        0 <= i < s.len(),
    ensures
        sum_widths(s.update(i, v)) == sum_widths(s) - s[i].width + v.width,
    decreases s.len(),
{
    if i + 1 == s.len() {
        assert(s.update(i, v).drop_last() =~= s.drop_last());
        assert(s.update(i, v).last() == v);
    } else {
        assert(s.update(i, v).drop_last() =~= s.drop_last().update(i, v));
        assert(s.update(i, v).last() == s.last());
        lemma_sum_update(s.drop_last(), i, v);
    }
}

proof fn lemma_first_driving(s: Seq<LaneSpec>, i: int)
    requires
        0 <= i < s.len(),
        s[i].lane_type is Driving,
        forall|j: int| 0 <= j < i ==> !((#[trigger] s[j]).lane_type is Driving),
    ensures
        first_driving_idx(s) == i,
    decreases i,
{
    if i > 0 {
        assert(forall|j: int|
            0 <= j < i - 1 ==> !((#[trigger] s.drop_first()[j]).lane_type is Driving));
        lemma_first_driving(s.drop_first(), i - 1);
    }
}

/// The shape facts every caller needs of the untrimmed lane sequence: it is
/// short, its standard widths are small, it always contains a driving lane,
/// and it is ordered left-to-right.
#[verifier::rlimit(100)]
pub proof fn lemma_base_specs_form(tags: RoadTags)
    ensures
        1 <= base_specs(tags).len() <= 26,
        widths_bounded(base_specs(tags)),
        has_driving(base_specs(tags)),
        left_to_right(base_specs(tags)),
{
    let nf = driving_count(tags.driving_fwd);
    let nb = driving_count(tags.driving_back);
    lemma_repeat_lane_form(LaneType::Driving, Direction::Fwd, nf);
    lemma_repeat_lane_form(LaneType::Driving, Direction::Back, nb);
    let r = right_half(tags);
    assert(r[0] == lane(LaneType::Driving, Direction::Fwd));
    assert(widths_bounded(r));
    assert(all_dir(r, Direction::Fwd));
    if tags.oneway {
        let p = opt_lane(has_sidewalks(tags.sidewalks), LaneType::Sidewalk, Direction::Fwd);
        let b = base_specs(tags);
        assert(b[p.len() as int] == r[0]);
        assert(has_driving(b));
        assert(widths_bounded(b));
        assert(all_dir(b, Direction::Fwd));
    } else {
        let l = left_half(tags);
        let b = base_specs(tags);
        assert(widths_bounded(l));
        assert(all_dir(l, Direction::Back));
        assert(b[l.len() as int] == r[0]);
        assert(has_driving(b));
        assert(widths_bounded(b));
        assert(forall|i: int| 0 <= i < l.len() ==> (#[trigger] b[i]).dir == Direction::Back);
        assert(forall|i: int|
            l.len() <= i < b.len() ==> (#[trigger] b[i]).dir == Direction::Fwd);
    }
}

fn width_of(lt: LaneType) -> (w: u32)
    ensures
        w == std_width(lt),
{
    match lt {
        LaneType::Driving => DRIVING_WIDTH,
        LaneType::Biking => BIKE_WIDTH,
        LaneType::Parking => PARKING_WIDTH,
        LaneType::Sidewalk => SIDEWALK_WIDTH,
        LaneType::Bus => BUS_WIDTH,
    }
}

fn clamp_count(declared: Option<u8>) -> (n: u8)
    ensures
        n as int == driving_count(declared),
        1 <= n <= MAX_DRIVING_PER_DIR,
{
    match declared {
        Option::None => 1,
        Option::Some(x) => if x < 1 {
            1
        } else if x > MAX_DRIVING_PER_DIR {
            MAX_DRIVING_PER_DIR
        } else {
            x
        },
    }
}

fn push_lane(v: &mut Vec<LaneSpec>, present: bool, lt: LaneType, dir: Direction)
    ensures
        final(v)@ == old(v)@ + opt_lane(present, lt, dir),
{
    if present {
        let w = width_of(lt);
        v.push(LaneSpec { lane_type: lt, dir: dir, width: w });
    }
    proof {
        assert(v@ =~= old(v)@ + opt_lane(present, lt, dir));
    }
}

fn push_driving(v: &mut Vec<LaneSpec>, dir: Direction, n: u8)
    ensures
        final(v)@ == old(v)@ + repeat_lane(LaneType::Driving, dir, n as int),
{
    let mut i: u8 = 0;
    while i < n
        invariant
            i <= n,
            v@ == old(v)@ + repeat_lane(LaneType::Driving, dir, i as int),
        decreases n - i,
    {
        v.push(LaneSpec { lane_type: LaneType::Driving, dir: dir, width: DRIVING_WIDTH });
        proof {
            assert(v@ =~= old(v)@ + repeat_lane(LaneType::Driving, dir, i + 1));
        }
        i = i + 1;
    }
}

fn sum_widths_exec(v: &Vec<LaneSpec>) -> (t: u64)
    requires
        widths_bounded(v@),
        v@.len() <= 26,
    ensures
        t as int == sum_widths(v@),
        t <= 26 * 350,
{
    let mut t: u64 = 0;
    let mut i: usize = 0;
    proof {
        assert(v@.take(0) =~= Seq::<LaneSpec>::empty());
        lemma_sum_bound(v@);
    }
    while i < v.len()
        invariant
            i <= v@.len() <= 26,
            widths_bounded(v@),
            t as int == sum_widths(v@.take(i as int)),
            t <= 350 * i,
        decreases v@.len() - i,
    {
        proof {
            lemma_sum_take(v@, i as int);
        }
        t = t + v[i].width as u64;
        i = i + 1;
    }
    proof {
        assert(v@.take(v@.len() as int) =~= v@);
    }
    t
}

/// Derives the ordered left-to-right lane layout for one road from its
/// tags. Pure and deterministic: the result is pinned by `lane_specs_of`.
/// Fails with `InvalidLaneConfig` exactly when the standard widths of the
/// implied lanes exceed the declared cross-section by more than `tolerance`.
#[verifier::rlimit(100)]
pub fn get_lane_specs(tags: &RoadTags, tolerance: u32) -> (r: Result<Vec<LaneSpec>, MapError>)
    ensures
        r is Ok <==> lane_specs_of(*tags, tolerance) is Ok,
        r is Ok ==> r->Ok_0@ == lane_specs_of(*tags, tolerance)->Ok_0,
        r is Err ==> r->Err_0 == MapError::InvalidLaneConfig,
{
    let mut v: Vec<LaneSpec> = Vec::new();
    let sw = match tags.sidewalks {
        Option::None => true,
        Option::Some(b) => b,
    };
    if tags.oneway {
        push_lane(&mut v, sw, LaneType::Sidewalk, Direction::Fwd);
        push_driving(&mut v, Direction::Fwd, clamp_count(tags.driving_fwd));
        push_lane(&mut v, tags.bus_lanes, LaneType::Bus, Direction::Fwd);
        push_lane(&mut v, tags.bike_lanes, LaneType::Biking, Direction::Fwd);
        push_lane(&mut v, tags.parking_lanes, LaneType::Parking, Direction::Fwd);
        push_lane(&mut v, sw, LaneType::Sidewalk, Direction::Fwd);
        proof {
            assert(v@ =~= base_specs(*tags));
        }
    } else {
        push_lane(&mut v, sw, LaneType::Sidewalk, Direction::Back);
        push_lane(&mut v, tags.parking_lanes, LaneType::Parking, Direction::Back);
        push_lane(&mut v, tags.bike_lanes, LaneType::Biking, Direction::Back);
        push_lane(&mut v, tags.bus_lanes, LaneType::Bus, Direction::Back);
        push_driving(&mut v, Direction::Back, clamp_count(tags.driving_back));
        push_driving(&mut v, Direction::Fwd, clamp_count(tags.driving_fwd));
        push_lane(&mut v, tags.bus_lanes, LaneType::Bus, Direction::Fwd);
        push_lane(&mut v, tags.bike_lanes, LaneType::Biking, Direction::Fwd);
        push_lane(&mut v, tags.parking_lanes, LaneType::Parking, Direction::Fwd);
        push_lane(&mut v, sw, LaneType::Sidewalk, Direction::Fwd);
        proof {
            assert(v@ =~= base_specs(*tags));
        }
    }
    proof {
        lemma_base_specs_form(*tags);
    }
    let total = sum_widths_exec(&v);
    if total > tags.cross_section as u64 + tolerance as u64 {
        return Result::Err(MapError::InvalidLaneConfig);
    }
    if total < tags.cross_section as u64 {
        proof {
            lemma_sum_bound(v@);
        }
        let slack = tags.cross_section - total as u32;
        widen_first(&mut v, slack);
        return Result::Ok(v);
    }
    Result::Ok(v)
}

/// Gives the width slack to the first driving lane of the layout.
#[verifier::loop_isolation(false)]
fn widen_first(v: &mut Vec<LaneSpec>, slack: u32)
    requires
        has_driving(old(v)@),
        sum_widths(old(v)@) + slack <= u32::MAX,
    ensures
        final(v)@ == widen_at(old(v)@, first_driving_idx(old(v)@), slack as int),
{
    let mut idx: usize = 0;
    let n = v.len();
    while idx < n
        invariant
            idx <= n,
            forall|j: int| 0 <= j < idx ==> !((#[trigger] v@[j]).lane_type is Driving),
            v@ == old(v)@,
        decreases n - idx,
    {
        if matches!(v[idx].lane_type, LaneType::Driving) {
            proof {
                lemma_first_driving(v@, idx as int);
                lemma_sum_elem(v@, idx as int);
                lemma_sum_nonneg(v@);
            }
            let cur = v[idx];
            v.set(
                idx,
                LaneSpec { lane_type: cur.lane_type, dir: cur.dir, width: cur.width + slack },
            );
            return ;
        }
        idx = idx + 1;
    }
    proof {
        // unreachable: a driving lane exists and the scan saw every index
        assert(false);
    }
}

/// Reruns on identical input produce the identical lane layout: the result
/// is a function of the tags and tolerance alone.
pub proof fn lemma_lane_specs_deterministic(
    tags: RoadTags,
    tolerance: u32,
    r1: Seq<LaneSpec>,
    r2: Seq<LaneSpec>,
)
    requires
        lane_specs_of(tags, tolerance) == Result::<Seq<LaneSpec>, MapError>::Ok(r1),
        lane_specs_of(tags, tolerance) == Result::<Seq<LaneSpec>, MapError>::Ok(r2),
    ensures
        r1 == r2,
{
}

/// On success the produced widths fill the declared cross-section: never
/// less than it, and over it by at most the tolerance.
pub proof fn lemma_widths_fill_cross_section(tags: RoadTags, tolerance: u32)
    requires
        lane_specs_of(tags, tolerance) is Ok,
    ensures
        tags.cross_section <= sum_widths(lane_specs_of(tags, tolerance)->Ok_0) <= tags.cross_section
            + tolerance,
{
    let base = base_specs(tags);
    let total = sum_widths(base);
    lemma_base_specs_form(tags);
    lemma_sum_bound(base);
    if total < tags.cross_section {
        let i = first_driving_idx(base);
        lemma_first_driving_in_range(base);
        lemma_sum_update(
            base,
            i,
            LaneSpec {
                lane_type: base[i].lane_type,
                dir: base[i].dir,
                width: (base[i].width + tags.cross_section - total) as u32,
            },
        );
        lemma_sum_elem(base, i);
    }
}

proof fn lemma_first_driving_in_range(s: Seq<LaneSpec>)
    requires
        has_driving(s),
    ensures
        0 <= first_driving_idx(s) < s.len(),
        s[first_driving_idx(s)].lane_type is Driving,
        forall|j: int| 0 <= j < first_driving_idx(s) ==> !((#[trigger] s[j]).lane_type is Driving),
    decreases s.len(),
{
    if s.len() > 0 && !(s[0].lane_type is Driving) {
        assert(has_driving(s.drop_first())) by {
            let w = choose|j: int| 0 <= j < s.len() && (#[trigger] s[j]).lane_type is Driving;
            assert(s.drop_first()[w - 1].lane_type is Driving);
        }
        lemma_first_driving_in_range(s.drop_first());
        assert forall|j: int| 0 <= j < first_driving_idx(s) implies !((#[trigger] s[j]).lane_type
            is Driving) by {
            if j > 0 {
                assert(s[j] == s.drop_first()[j - 1]);
            }
        }
    }
}

/// The produced order is strictly left-to-right and survives the width
/// adjustment: no forward lane ever precedes a backward lane.
pub proof fn lemma_lane_order(tags: RoadTags, tolerance: u32)
    requires
        lane_specs_of(tags, tolerance) is Ok,
    ensures
        left_to_right(lane_specs_of(tags, tolerance)->Ok_0),
{
    lemma_base_specs_form(tags);
    let base = base_specs(tags);
    let out = lane_specs_of(tags, tolerance)->Ok_0;
    let total = sum_widths(base);
    if total < tags.cross_section && has_driving(base) {
        lemma_first_driving_in_range(base);
        let i = first_driving_idx(base);
        assert(out == widen_at(base, i, tags.cross_section - total));
        assert forall|k: int| 0 <= k < out.len() implies (#[trigger] out[k]).dir == base[k].dir by {
            if k != i {
                assert(out[k] == base[k]);
            }
        }
    } else {
        assert(out == base);
    }
}

} // verus!
