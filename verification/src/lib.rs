//! The decision core of a color gradient engine.
//!
//! A gradient is a table of stops, each a position with a color, and a rule
//! for blending between two neighboring stops. This crate holds what is a
//! matter of order and structure: which stops a builder's colors and
//! positions make, in which segment of a table a position falls, which
//! samples of a gradient are due, how the text of a stop list or of a
//! gradient file is laid out. Positions and channels are binary32 numbers
//! held by their bit patterns; the crate compares them and never computes
//! with them. Spacing positions, converting colors and blending them is the
//! caller's part, and each function here says what it needs handed in.

use vstd::prelude::*;

pub mod builder;
pub mod color;
pub mod css_gradient;
pub mod error;
pub mod gimp_gradient;
pub mod linearize;
pub mod preset;
pub mod sampling;
pub mod scalar;
pub mod sharp;
pub mod table;
pub mod text;

pub use builder::GradientBuilder;
pub use color::Rgba;
pub use css_gradient::CSSGradientParser;
pub use error::GradientBuilderError;
pub use gimp_gradient::{GimpGradient, ParseGgrError};
pub use sampling::GradientColors;
pub use scalar::Scalar;
pub use sharp::SharpTable;
pub use table::StopTable;

verus! {

/// Color blending mode: the space in which channels are interpolated.
#[derive(Debug, Copy, Clone, Eq, PartialEq, Ord, PartialOrd, Hash, Structural)]
pub enum BlendMode {
    Rgb,
    LinearRgb,
    Oklab,
    Lab,
    /// Hue, saturation, value. Hue is an angle: between two stops it runs
    /// along the shorter arc.
    Hsv,
}

} // verus!
