use vstd::prelude::*;

verus! {

/// The encoding that a shape is declared to use.
///
/// Only `Polyline6` has a decoder in this library; the others are tags that a
/// caller may carry and must handle itself.
#[derive(Debug, Clone, Copy, PartialEq, Eq, Structural)]
pub enum ShapeFormat {
    Polyline6,
    Polyline5,
    GeoJSON,
    NoShape,
}

} // verus!
