//! Field-of-view engine for a top-down 2D game: ray casting against polygonal
//! obstacles, angular sampling of a view cone, and fog-of-war classification.
//!
//! Positions are integer world units and angles are fixed-point turns, so
//! every computation here is exact. Trigonometry (the angle of a vector, the
//! vector of an angle) is left to the caller: `visibility::corner_offsets`
//! hands out the vectors whose angles `angles::sample_deltas` needs, and
//! `visibility::calculate_visibility_polygon` takes the ray vectors of the
//! sampled angles.
//!
//! The `shapes` module holds the footprints of inventory items on the
//! inventory grid.

pub mod geometry;
pub mod angles;
pub mod visibility;
pub mod fog;
pub mod shapes;
