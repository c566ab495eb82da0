//! Logical pixels, how they are read from a buffer, and their cache slot.

use vstd::prelude::*;

verus! {

/// One logical pixel: four channels, with alpha forced to 255 when the
/// buffer holds only three channels per pixel.
#[derive(Clone, Copy, PartialEq, Eq, Structural, Debug)]
pub struct Pixel {
    pub r: u8,
    pub g: u8,
    pub b: u8,
    pub a: u8,
}

/// The pixel that every scan starts from: opaque black.
pub open spec fn opaque_black() -> Pixel {
    Pixel { r: 0, g: 0, b: 0, a: 255 }
}

/// The value every slot of the color cache holds before the scan: all zero.
pub open spec fn transparent_black() -> Pixel {
    Pixel { r: 0, g: 0, b: 0, a: 0 }
}

/// The color-cache slot of a pixel.
pub open spec fn slot(p: Pixel) -> int {
    (p.r * 3 + p.g * 5 + p.b * 7 + p.a * 11) % 64
}

/// Whether a channel count is one the encoder handles.
pub open spec fn valid_channels(channels: u8) -> bool {
    channels == 3 || channels == 4
}

/// The number of whole pixels in a buffer; a trailing partial group is not one.
pub open spec fn pixel_count(data: Seq<u8>, channels: u8) -> nat
    recommends
        valid_channels(channels),
{
    data.len() / (channels as nat)
}

/// The `i`-th logical pixel of a buffer.
pub open spec fn pixel_of(data: Seq<u8>, channels: u8, i: int) -> Pixel {
    let base = i * channels;
    Pixel {
        r: data[base],
        g: data[base + 1],
        b: data[base + 2],
        a: if channels == 3 {
            255
        } else {
            data[base + 3]
        },
    }
}

/// All whole logical pixels of a buffer, in order.
pub open spec fn pixels_of(data: Seq<u8>, channels: u8) -> Seq<Pixel> {
    Seq::new(pixel_count(data, channels), |i: int| pixel_of(data, channels, i))
}

/// The color-cache slot of a pixel, always below 64.
pub fn color_slot(p: Pixel) -> (r: usize)
    ensures
        r as int == slot(p),
        r < 64,
{
    let h: u32 = p.r as u32 * 3 + p.g as u32 * 5 + p.b as u32 * 7 + p.a as u32 * 11;
    (h % 64) as usize
}

/// The `i`-th logical pixel of a buffer of `channels` bytes per pixel.
pub fn pixel_at(data: &[u8], channels: u8, i: usize) -> (p: Pixel)
    requires
        valid_channels(channels),
        i < pixel_count(data@, channels),
    ensures
        p == pixel_of(data@, channels, i as int),
{
    let ch = channels as usize;
    let len = data.len();
    proof {
        let n = pixel_count(data@, channels) as int;
        assert(i * ch + ch <= data@.len()) by (nonlinear_arith)
            requires
                i < n,
                n == len as int / (ch as int),
                len == data@.len(),
                ch == 3 || ch == 4,
        ;
    }
    let base = i * ch;
    let a: u8 = if channels == 3 {
        255
    } else {
        data[base + 3]
    };
    Pixel { r: data[base], g: data[base + 1], b: data[base + 2], a }
}

/// Two pixels with the same four logical channels share a cache slot, so
/// computing the slot again for the same pixel of a buffer gives the same one.
pub proof fn lemma_slot_depends_on_channels(data: Seq<u8>, channels: u8, i: int, j: int)
    requires
        valid_channels(channels),
        0 <= i < pixel_count(data, channels),
        0 <= j < pixel_count(data, channels),
        pixel_of(data, channels, i) == pixel_of(data, channels, j),
    ensures
        slot(pixels_of(data, channels)[i]) == slot(pixels_of(data, channels)[j]),
        0 <= slot(pixels_of(data, channels)[i]) < 64,
{
}

} // verus!
