//! Decoding of polyline6 path shapes into points held in integer microdegrees.
pub mod format;
pub mod point;
pub mod polyline;

pub use format::ShapeFormat;
pub use point::ShapePoint;
pub use polyline::{decode_shape, decode_shape_polyline6, DecodeError};
