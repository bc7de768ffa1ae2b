//! Construction of a consistent road-network model from raw geographic input.
//!
//! The pipeline derives per-road lane layouts from sparse tags
//! ([`lanes::get_lane_specs`]), trims lane centerlines so they stop at
//! intersection boundaries ([`trim::trim_lines`]), enumerates and classifies
//! the legal turn movements at each intersection ([`turns::make_all_turns`]),
//! connects buildings to the nearest usable lane
//! ([`buildings::make_building`]), and groups parcels into adjacency blocks
//! ([`parcels::group_parcels`]). The batch pass over all roads and
//! intersections lives in [`pipeline`]: a failing entity is reported and
//! skipped, never allowed to abort its siblings.
//!
//! All geometry is carried as fixed-point integer coordinates so that every
//! geometric predicate is exact and every arithmetic step is proved free of
//! overflow.

use vstd::prelude::*;

pub mod geometry;
pub mod lanes;
pub mod trim;
pub mod turns;
pub mod parcels;
pub mod buildings;
pub mod pipeline;

verus! {

/// Structural failures surfaced by the pipeline. Anything softer (an
/// intersection with no legal turns, a building with no reachable lane) is a
/// valid terminal state of the data model, not an error.
#[derive(Clone, Copy, PartialEq, Eq, Structural, Debug)]
pub enum MapError {
    /// Tag data implies a lane cross-section wider than the road allows.
    InvalidLaneConfig,
    /// A centerline with fewer than two distinct points (zero length).
    DegenerateGeometry,
}

} // verus!
