use vstd::prelude::*;

verus! {

/// A geographic point in WGS84, held as whole microdegrees.
///
/// `lon_e6` is the longitude and `lat_e6` the latitude, each multiplied by
/// one million. Points made by the decoder lie strictly inside the bounds of
/// `in_bounds`.
#[derive(Debug, Clone, Copy, PartialEq, Eq, Structural)]
pub struct ShapePoint {
    pub lon_e6: i32,
    pub lat_e6: i32,
}

impl View for ShapePoint {
    type V = (int, int);

    /// The point as `(longitude, latitude)` in microdegrees.
    open spec fn view(&self) -> (int, int) {
        (self.lon_e6 as int, self.lat_e6 as int)
    }
}

/// Latitude strictly between the poles, in microdegrees.
pub open spec fn lat_in_bounds(lat: int) -> bool {
    -90_000_000 < lat < 90_000_000
}

/// Longitude strictly between the antimeridians, in microdegrees.
pub open spec fn lon_in_bounds(lon: int) -> bool {
    -180_000_000 < lon < 180_000_000
}

/// Both coordinates of `(lon, lat)` lie in the open bounds.
///
/// The bounds exclude the poles and the antimeridian exactly, as a matter of
/// policy: a shape that touches them is reported as out of range.
pub open spec fn in_bounds(p: (int, int)) -> bool {
    lon_in_bounds(p.0) && lat_in_bounds(p.1)
}

impl ShapePoint {
    /// Makes a point from microdegrees, if both lie in the open bounds.
    pub fn new(lon_e6: i32, lat_e6: i32) -> (r: Option<ShapePoint>)
        ensures
            r is Some <==> in_bounds((lon_e6 as int, lat_e6 as int)),
            r matches Some(p) ==> p.lon_e6 == lon_e6 && p.lat_e6 == lat_e6,
    {
        if -180_000_000 < lon_e6 && lon_e6 < 180_000_000 && -90_000_000 < lat_e6 && lat_e6
            < 90_000_000 {
            Some(ShapePoint { lon_e6, lat_e6 })
        } else {
            None
        }
    }
}

} // verus!
