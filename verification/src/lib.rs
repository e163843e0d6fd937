//! Representative colour palettes by median cut.
//!
//! A raw pixel buffer is sampled, tallied into a coarse three-dimensional
//! histogram and cut into boxes of colour space; each box contributes its
//! population-weighted mean colour to the palette.
//!
//! The choices that shape a palette, each stated where it is made:
//!
//! - Sampling ([`sampler`]) visits the pixels 0, Q, 2Q, ... for a stride Q.
//!   A visited pixel is left out when its alpha is below a threshold, or
//!   when all its colour channels are above a cutoff. By default the
//!   threshold is 125 and no colour is cut off.
//! - The histogram ([`histogram`]) keeps the upper five bits of each
//!   channel, and for each cell the number of samples and the sums of
//!   their channel values.
//! - A box ([`color_box`]) is always tight: its bounds are those of the
//!   occupied cells in it. It is cut after the first coordinate up to
//!   which it holds at least half of its samples, and so that either side
//!   keeps a coordinate ([`region::cut_point`]).
//! - The quantizer ([`quantizer`]) turns to the box with the greatest
//!   population, and among equals to the one found first; it cuts along
//!   the longest axis, red before green before blue among equals.
//! - The palette ([`palette`]) lists the mean colours of the boxes in the
//!   order in which the boxes became final, each channel rounded to the
//!   nearest integer, a half rounding up.
//!
//! What follows from these choices is proved in [`laws`], [`cut_laws`] and
//! [`few_colors`].

pub mod color;
pub mod color_box;
pub mod cut_laws;
pub mod decimal;
pub mod error;
pub mod few_colors;
pub mod histogram;
pub mod laws;
pub mod palette;
pub mod quantizer;
pub mod region;
pub mod sampler;
