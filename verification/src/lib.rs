//! Bounding boxes in four formats, their conversion to absolute corner
//! coordinates, and the exact intersection-over-union of two boxes.
//!
//! [`formats`] reads lines of text and converts boxes, [`geometry`] measures
//! them, [`evaluation`] does both for a predicted box and its ground truth.
//! The rest is what these stand on: [`text`] has fields and decimal numbers,
//! [`binary32`] the single-precision arithmetic of the normalized formats,
//! [`binary64`] the double-precision quotient of a proportion, and
//! [`nearest`] the rounding that both share.

pub mod binary32;
pub mod binary64;
pub mod evaluation;
pub mod formats;
pub mod geometry;
pub mod nearest;
pub mod text;
