//! Turns a black/white pixel grid into a grayscale "valley" heightmap: every
//! black pixel is darkened in proportion to its distance from the nearest
//! white pixel, and every white pixel stays white.
use vstd::prelude::*;

pub mod convert;
pub mod error;
pub mod extrema;
pub mod field;
pub mod geometry;
pub mod height;
pub mod nearest;

pub use convert::heightmap_from_grid;
pub use error::ValleyError;
pub use extrema::{max, min};
pub use field::{get_maxmin_sqdist, DistanceField};
pub use geometry::{dist_sq, integer_sqrt, Point};
pub use height::{colorize, get_color_from_min_sqdist, Rgba8};
pub use nearest::{get_min_sqdist_from, nearest_by_full_scan, nearest_in_disc, SEARCH_RADIUS};
