//! The ways in which palette extraction can fail.

use vstd::prelude::*;

verus! {

/// Why a step of palette extraction did not produce its result.
#[derive(Clone, Copy, Debug, PartialEq, Eq)]
pub enum QuantizeError {
    /// The buffer length is not `width * height * channels`.
    BufferLengthMismatch,
    /// The pixel data is not 8-bit RGB or 8-bit RGBA.
    UnsupportedChannelLayout,
    /// No pixel was left after sampling and filtering.
    InsufficientData,
    /// A box that holds a single histogram cell along the requested axis
    /// cannot be cut. The quantizer reacts to this signal by making the box
    /// final; it never leaves the quantizer.
    Unsplittable,
}

impl QuantizeError {
    /// The text of [`QuantizeError::message`].
    pub open spec fn message_text(self) -> Seq<char> {
        match self {
            QuantizeError::BufferLengthMismatch => "buffer length does not match the image dimensions"@,
            QuantizeError::UnsupportedChannelLayout => "pixel data is neither 8-bit RGB nor 8-bit RGBA"@,
            QuantizeError::InsufficientData => "no usable pixels left after sampling"@,
            QuantizeError::Unsplittable => "box cannot be split"@,
        }
    }

    /// A short description for display.
    pub fn message(&self) -> (text: &'static str)
        ensures
            text@ == self.message_text(),
    {
        match self {
            QuantizeError::BufferLengthMismatch => "buffer length does not match the image dimensions",
            QuantizeError::UnsupportedChannelLayout => "pixel data is neither 8-bit RGB nor 8-bit RGBA",
            QuantizeError::InsufficientData => "no usable pixels left after sampling",
            QuantizeError::Unsplittable => "box cannot be split",
        }
    }
}

} // verus!
