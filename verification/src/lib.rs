//! Greedy packing of circles into the bright region of a raster image.
//!
//! The bright pixels form an insertion-ordered set. A seed is chosen, the
//! largest disc around it that stays inside the set is grown, its pixels leave
//! the set, and the process repeats until the set is exhausted.

pub mod coverage;
pub mod foreground;
pub mod geometry;
pub mod grow;
pub mod order;
pub mod output;
pub mod packing;
pub mod pixel_set;
pub mod seed;
