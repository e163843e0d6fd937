//! Turning a raw pixel buffer into the samples that feed the histogram.
//!
//! Pixels are visited at a fixed stride, starting with the first. A visited
//! pixel becomes a sample unless the [`FilterPolicy`] excludes it.

use vstd::prelude::*;
use crate::error::QuantizeError;

verus! {

/// How the channels of one pixel are laid out in the buffer.
///
/// Only [`ChannelLayout::Rgb8`] and [`ChannelLayout::Rgba8`] can be sampled;
/// the other layouts exist so that a decoder can name what it produced and
/// have it rejected instead of reinterpreted.
#[derive(Clone, Copy, Debug, PartialEq, Eq)]
pub enum ChannelLayout {
    Rgb8,
    Rgba8,
    Luma8,
    LumaA8,
    Rgb16,
    Rgba16,
    Luma16,
    LumaA16,
    Rgb32F,
    Rgba32F,
    /// Any layout not named above.
    Other,
}

impl ChannelLayout {
    /// Whether pixels of this layout can be sampled.
    pub open spec fn is_supported(self) -> bool {
        self is Rgb8 || self is Rgba8
    }

    /// Bytes per pixel of a supported layout, and 0 for the others.
    pub open spec fn channels(self) -> int {
        match self {
            ChannelLayout::Rgb8 => 3,
            ChannelLayout::Rgba8 => 4,
            _ => 0,
        }
    }

    /// Bytes per pixel, or `None` where the layout is not supported.
    pub fn channel_count(self) -> (n: Option<usize>)
        ensures
            n is Some <==> self.is_supported(),
            n is Some ==> n->Some_0 == self.channels(),
    {
        match self {
            ChannelLayout::Rgb8 => Some(3),
            ChannelLayout::Rgba8 => Some(4),
            _ => None,
        }
    }
}

/// The channel values of one pixel. A layout without alpha yields `a = 255`.
#[derive(Clone, Copy, Debug, PartialEq, Eq)]
pub struct Sample {
    pub r: u8,
    pub g: u8,
    pub b: u8,
    pub a: u8,
}

/// Which visited pixels are left out of the histogram.
///
/// A pixel is left out when its alpha is below `min_alpha`, or when all three
/// of its colour channels are above `white_cutoff`. A cutoff of 255 keeps
/// every colour, white included.
#[derive(Clone, Copy, Debug, PartialEq, Eq)]
pub struct FilterPolicy {
    pub min_alpha: u8,
    pub white_cutoff: u8,
}

impl FilterPolicy {
    /// Whether a pixel with these channel values becomes a sample.
    pub open spec fn keeps(self, s: Sample) -> bool {
        s.a >= self.min_alpha && !(s.r > self.white_cutoff && s.g > self.white_cutoff && s.b
            > self.white_cutoff)
    }

    /// The policy of [`crate::palette::quantize`]: drop pixels whose alpha is
    /// below 125, keep every colour.
    pub open spec fn standard() -> FilterPolicy {
        FilterPolicy { min_alpha: 125, white_cutoff: 255 }
    }

    /// Drops pixels whose alpha is below 125 and keeps every colour.
    pub fn visible() -> (p: FilterPolicy)
        ensures
            p == FilterPolicy::standard(),
    {
        FilterPolicy { min_alpha: 125, white_cutoff: 255 }
    }

    /// Drops pixels whose alpha is below 125 and those whose three colour
    /// channels are all above 250.
    pub fn visible_without_white() -> (p: FilterPolicy)
        ensures
            p == (FilterPolicy { min_alpha: 125, white_cutoff: 250 }),
    {
        FilterPolicy { min_alpha: 125, white_cutoff: 250 }
    }

    /// Decides whether a pixel becomes a sample.
    pub fn admits(&self, s: &Sample) -> (kept: bool)
        ensures
            kept == self.keeps(*s),
    {
        s.a >= self.min_alpha && !(s.r > self.white_cutoff && s.g > self.white_cutoff && s.b
            > self.white_cutoff)
    }
}

/// Number of whole pixels in a buffer of `len` bytes.
pub open spec fn pixel_count(len: nat, layout: ChannelLayout) -> int {
    match layout {
        ChannelLayout::Rgb8 => len as int / 3,
        ChannelLayout::Rgba8 => len as int / 4,
        _ => 0,
    }
}

/// How many pixels lie at or after `start`.
pub open spec fn pixels_left(len: nat, layout: ChannelLayout, start: int) -> int {
    if start < pixel_count(len, layout) {
        pixel_count(len, layout) - start
    } else {
        0
    }
}

/// The pixel with index `i`, for `i` below the pixel count.
pub open spec fn pixel_at(buf: Seq<u8>, layout: ChannelLayout, i: int) -> Sample {
    match layout {
        ChannelLayout::Rgba8 => Sample {
            r: buf[4 * i],
            g: buf[4 * i + 1],
            b: buf[4 * i + 2],
            a: buf[4 * i + 3],
        },
        _ => Sample { r: buf[3 * i], g: buf[3 * i + 1], b: buf[3 * i + 2], a: 255 },
    }
}

/// The samples taken from pixel `start` onwards: the pixels `start`,
/// `start + quality`, `start + 2 * quality`, ... below the pixel count, in
/// that order, without those that the policy leaves out.
pub open spec fn stride_samples(
    buf: Seq<u8>,
    layout: ChannelLayout,
    quality: int,
    policy: FilterPolicy,
    start: int,
) -> Seq<Sample>
    decreases pixels_left(buf.len(), layout, start),
{
    if quality <= 0 || start < 0 || start >= pixel_count(buf.len(), layout) {
        Seq::empty()
    } else {
        let rest = stride_samples(buf, layout, quality, policy, start + quality);
        let s = pixel_at(buf, layout, start);
        if policy.keeps(s) {
            seq![s] + rest
        } else {
            rest
        }
    }
}

/// What sampling yields: the error that the buffer and layout call for, or
/// the samples of the whole buffer.
pub open spec fn sampling_outcome(
    buf: Seq<u8>,
    layout: ChannelLayout,
    width: u32,
    height: u32,
    quality: u32,
    policy: FilterPolicy,
) -> Result<Seq<Sample>, QuantizeError> {
    if !layout.is_supported() {
        Err(QuantizeError::UnsupportedChannelLayout)
    } else if buf.len() != width as int * height as int * layout.channels() {
        Err(QuantizeError::BufferLengthMismatch)
    } else {
        Ok(stride_samples(buf, layout, quality as int, policy, 0))
    }
}

fn read_pixel(buffer: &[u8], layout: ChannelLayout, i: usize) -> (s: Sample)
    requires
        layout.is_supported(),
        0 <= i < pixel_count(buffer@.len(), layout),
    ensures
        s == pixel_at(buffer@, layout, i as int),
{
    let len = buffer.len();
    match layout {
        ChannelLayout::Rgba8 => {
            assert(4 * (len as int / 4) <= len);
            let base = 4 * i;
            Sample { r: buffer[base], g: buffer[base + 1], b: buffer[base + 2], a: buffer[base + 3] }
        },
        _ => {
            assert(3 * (len as int / 3) <= len);
            let base = 3 * i;
            Sample { r: buffer[base], g: buffer[base + 1], b: buffer[base + 2], a: 255 }
        },
    }
}

/// Samples a pixel buffer at stride `quality`.
///
/// An unsupported layout is reported first, then a buffer whose length is not
/// `width * height * channels`.
pub fn sample_pixels(
    buffer: &[u8],
    layout: ChannelLayout,
    width: u32,
    height: u32,
    quality: u32,
    policy: &FilterPolicy,
) -> (res: Result<Vec<Sample>, QuantizeError>)
    requires
        quality >= 1,
    ensures
        match res {
            Ok(samples) => sampling_outcome(buffer@, layout, width, height, quality, *policy)
                == Ok::<Seq<Sample>, QuantizeError>(samples@),
            Err(e) => sampling_outcome(buffer@, layout, width, height, quality, *policy)
                == Err::<Seq<Sample>, QuantizeError>(e),
        },
{
    let channels = match layout.channel_count() {
        Some(n) => n,
        None => {
            return Err(QuantizeError::UnsupportedChannelLayout);
        },
    };
    assert(width as int * height as int <= 0xFFFF_FFFF * 0xFFFF_FFFF) by (nonlinear_arith)
        requires
            0 <= width <= 0xFFFF_FFFF,
            0 <= height <= 0xFFFF_FFFF,
    ;
    let area: u128 = (width as u128) * (height as u128);
    assert(area as int * channels as int <= 0xFFFF_FFFF * 0xFFFF_FFFF * 4) by (nonlinear_arith)
        requires
            0 <= area <= 0xFFFF_FFFF * 0xFFFF_FFFF,
            0 <= channels <= 4,
    ;
    let expected: u128 = area * (channels as u128);
    if buffer.len() as u128 != expected {
        return Err(QuantizeError::BufferLengthMismatch);
    }
    let count: usize = match layout {
        ChannelLayout::Rgba8 => buffer.len() / 4,
        _ => buffer.len() / 3,
    };
    let stride: usize = quality as usize;
    let mut samples: Vec<Sample> = Vec::new();
    let mut i: usize = 0;
    let mut finished: bool = count == 0;
    while !finished
        invariant
            layout.is_supported(),
            count == pixel_count(buffer@.len(), layout),
            stride == quality,
            stride >= 1,
            !finished ==> i < count,
            !finished ==> samples@ + stride_samples(
                buffer@,
                layout,
                quality as int,
                *policy,
                i as int,
            ) == stride_samples(buffer@, layout, quality as int, *policy, 0),
            finished ==> samples@ == stride_samples(buffer@, layout, quality as int, *policy, 0),
        decreases
            if finished { 0 } else { count - i + 1 },
    {
        let ghost before = samples@;
        let ghost rest = stride_samples(buffer@, layout, quality as int, *policy, i + stride);
        let s = read_pixel(buffer, layout, i);
        if policy.admits(&s) {
            samples.push(s);
            assert(samples@ + rest =~= before + (seq![s] + rest));
        }
        if count - i <= stride {
            assert(rest =~= Seq::<Sample>::empty());
            assert(samples@ + rest =~= samples@);
            finished = true;
        } else {
            i = i + stride;
        }
    }
    Ok(samples)
}

} // verus!
