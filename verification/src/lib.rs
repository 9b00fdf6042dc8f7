//! A spring-animated text caret: four springs, the colors and the pixels of it.
//!
//! `cursor` holds the caret. Times are in nanoseconds; numbers are IEEE 754 bit patterns, with
//! their arithmetic in `double` and `single`.
//!
//! What comes out is also stated in exact values: of the arithmetic in `correct`, of the springs in
//! `settling`, `aiming` and `leading`, and of the pixels in `sides`, `filling` and `canvas`.

pub mod accuracy;
pub mod aiming;
pub mod approx;
pub mod canvas;
pub mod color;
pub mod correct;
pub mod coverage;
pub mod cursor;
pub mod double;
pub mod exact;
pub mod filling;
pub mod float;
pub mod frames;
pub mod geometry;
pub mod leading;
pub mod motion;
pub mod raster;
pub mod rounding;
pub mod settling;
pub mod shade;
pub mod sides;
pub mod single;
pub mod spring;
pub mod steady;
