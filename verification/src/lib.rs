//! Derived rendering geometry for a road-network map: sidewalk corner
//! rounding, curb lines, border arrows, stop-sign glyphs, crosswalk striping,
//! intersection outlines, and a per-object render cache.
//!
//! All geometry is computed over integer millimetre coordinates, so every
//! operation is exact and deterministic.

pub mod geometry;
pub mod model;
pub mod corners;
pub mod curbs;
pub mod arrows;
pub mod stop_signs;
pub mod style;
pub mod crosswalks;
pub mod outline;
pub mod draw;
pub mod roads;
pub mod files;
