//! Iso-intensity contour lines of a gridded scalar field, swept over a ladder of
//! threshold levels and collected, level by level, into a queue of coloured
//! polylines for a raster canvas.
//!
//! Samples are fixed-point integers; every point of a contour line is held
//! exactly, as an edge of the mesh and a fraction along it. Every contour
//! line is a closed ring: where the contour reaches the rim of the grid, the
//! ring runs on along the rim.

pub mod canvas;
pub mod contour;
pub mod counting;
pub mod error;
pub mod extract;
pub mod gradient;
pub mod grid;
pub mod levels;
pub mod lines;
pub mod mesh;
pub mod sweep;
pub mod theorems;
pub mod transform;
pub mod unique;
