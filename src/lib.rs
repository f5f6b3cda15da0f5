//! Local-frame positioning helpers over fixed-point geographic coordinates.
//!
//! Latitudes and longitudes are held as signed integers in a fixed unit of
//! the caller's choosing (for example nanodegrees), so that every operation
//! here is exact integer arithmetic with a proved result.

pub mod centroid;

pub use centroid::{centroid_lat_lon, lat_sum, lon_sum};
