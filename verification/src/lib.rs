//! Generation of thalwegs — lines of deepest continuous water — from clouds
//! of geo-located depth soundings.
//!
//! Coordinates are held as fixed-point integers: microdegrees of longitude
//! and latitude for locations, millimetres for depths and for every
//! distance. All geometry, searching, refinement and serialization is
//! carried out on these integers, and verified. The search frontier is the
//! one structure borrowed from outside, held behind trusted contracts.

pub mod bathymetry;
pub mod distance;
pub mod format;
pub mod frontier;
pub mod generator;
pub mod index;
pub mod json;
pub mod parse;
pub mod read;
pub mod section;
pub mod text;

pub use bathymetry::Bathymetry;
pub use generator::ThalwegGenerator;
