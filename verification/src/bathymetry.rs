//! Depth soundings: a geographic location paired with a depth.
//!
//! Locations are quantized to microdegrees (1e-6 of a degree) and depths to
//! millimetres, so a sounding is a triple of integers. Two soundings are the
//! same sounding exactly when their quantized locations coincide; the depth
//! plays no part in identity.

use vstd::prelude::*;

use crate::distance::{distance_mm, distance_spec, DISTANCE_CAP_MM};

verus! {

/// A geographic position as `(longitude, latitude)` in microdegrees.
pub type Point = (i64, i64);

/// The quantized identity of a sounding: `(longitude, latitude)` in microdegrees.
pub type Location = (i64, i64);

/// One depth sounding: where it was taken and how deep the water was.
///
/// `depth` is in millimetres, positive below the surface.
#[derive(Clone, Copy, Debug)]
pub struct Bathymetry {
    pub location: Location,
    pub depth: i64,
}

/// Two soundings are the same measurement site exactly when their quantized
/// locations coincide.
pub open spec fn same_location(a: Bathymetry, b: Bathymetry) -> bool {
    a.location == b.location
}

impl PartialEq for Bathymetry {
    fn eq(&self, other: &Bathymetry) -> (r: bool) {
        self.location.0 == other.location.0 && self.location.1 == other.location.1
    }
}

impl vstd::std_specs::cmp::PartialEqSpecImpl for Bathymetry {
    open spec fn obeys_eq_spec() -> bool {
        true
    }

    open spec fn eq_spec(&self, other: &Bathymetry) -> bool {
        self.location == other.location
    }
}

impl Bathymetry {
    /// Makes a sounding from a latitude and longitude in microdegrees and a
    /// depth in millimetres.
    pub fn new(latitude: i64, longitude: i64, depth: i64) -> (r: Bathymetry)
        ensures
            r.location == (longitude, latitude),
            r.depth == depth,
    {
        Bathymetry { location: (longitude, latitude), depth }
    }

    /// The quantized location, `(longitude, latitude)` in microdegrees.
    pub fn location(&self) -> (r: Location)
        ensures
            r == self.location,
    {
        self.location
    }

    /// The position of the sounding as a point, `(longitude, latitude)` in
    /// microdegrees.
    pub fn point(&self) -> (r: Point)
        ensures
            r == self.location,
    {
        self.location
    }

    /// The depth in millimetres.
    pub fn depth(&self) -> (r: i64)
        ensures
            r == self.depth,
    {
        self.depth
    }

    /// Great-circle distance to another sounding, in millimetres.
    pub fn distance_to(&self, other: &Bathymetry) -> (r: u64)
        ensures
            r == distance_spec(self.location, other.location),
            r <= DISTANCE_CAP_MM,
    {
        distance_mm(self.location, other.location)
    }

    /// Great-circle distance to a bare point, in millimetres.
    pub fn distance_to_point(&self, other: &Point) -> (r: u64)
        ensures
            r == distance_spec(self.location, *other),
            r <= DISTANCE_CAP_MM,
    {
        distance_mm(self.location, *other)
    }
}

} // verus!
