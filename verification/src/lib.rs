//! Measures the width of elongated polygons (pavements, road surfaces) along
//! their centerline.
//!
//! All geometry is carried on an integer grid: plane coordinates are
//! millimeters, geodetic coordinates are microdegrees. Quantizing to a fixed
//! grid is what makes endpoint matching and coordinate round-trips exact, so
//! the grid is the data model rather than an afterthought.

pub mod clip;
pub mod geom;
pub mod join_lines;
pub mod mercator;
pub mod pavement;
pub mod split_line;
pub mod step_along_line;

pub use geom::{Pt, Polyline, Polygon, Segment, isqrt_u64, bounding_box};
pub use mercator::Mercator;
pub use join_lines::{join_linestrings, join_path, find_longest_path};
pub use step_along_line::{Sample, step_along_line};
pub use split_line::{split, slice};
pub use clip::clip_line_to_polygon;
pub use pavement::{Pavement, Config, compute_skeletons};
