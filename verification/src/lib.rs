//! GPS track processing: encoded polylines, FIT position records, route
//! density heatmaps, and the decisions of the track filters, splitters and
//! clusterers. Coordinates reach this library as integers (fixed-point
//! degrees, FIT semicircles) or as opaque points; distances between points
//! are measured by the caller and handed in as verdicts.
use vstd::prelude::*;

pub mod files;
pub mod filters;
pub mod fit;
pub mod heatmap;
pub mod intersections;
pub mod polyline;
pub mod tracks;

verus! {

} // verus!
