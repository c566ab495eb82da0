//! The byte layout of the stream: header, chunks and terminator.

use vstd::prelude::*;
use crate::pixel::Pixel;

verus! {

/// The largest number of pixels a single run chunk stands for.
pub const MAX_RUN: u8 = 62;

/// An integer reduced to the signed 8-bit range by two's-complement wraparound.
pub open spec fn wrap8(x: int) -> int {
    (x + 128) % 256 - 128
}

/// The wrapping 8-bit difference `cur - prev`, read as a signed byte.
pub open spec fn delta(cur: u8, prev: u8) -> int {
    wrap8(cur - prev)
}

/// The 14-byte stream header.
pub open spec fn header(width: u32, height: u32, channels: u8) -> Seq<u8> {
    magic() + be32(width) + be32(height) + seq![channels, 0u8]
}

/// The four bytes every stream starts with: "qoif".
pub open spec fn magic() -> Seq<u8> {
    seq![0x71u8, 0x6fu8, 0x69u8, 0x66u8]
}

/// A 32-bit unsigned integer as four big-endian bytes.
pub open spec fn be32(x: u32) -> Seq<u8> {
    seq![
        (x / 0x100_0000) as u8,
        (x / 0x1_0000 % 0x100) as u8,
        (x / 0x100 % 0x100) as u8,
        (x % 0x100) as u8,
    ]
}

/// The eight bytes every stream ends with.
pub open spec fn terminator() -> Seq<u8> {
    seq![0u8, 0u8, 0u8, 0u8, 0u8, 0u8, 0u8, 1u8]
}

/// A run chunk for `n` repetitions of the previous pixel, `1 <= n <= 62`.
pub open spec fn run_chunk(n: int) -> Seq<u8> {
    seq![(0xC0 + n - 1) as u8]
}

/// An index chunk naming cache slot `h`.
pub open spec fn index_chunk(h: int) -> Seq<u8> {
    seq![h as u8]
}

/// Whether a delta fits the one-byte diff chunk.
pub open spec fn small_delta(d: int) -> bool {
    -2 <= d <= 1
}

/// A diff chunk: each delta biased by 2, two bits each, red highest.
pub open spec fn diff_chunk(dr: int, dg: int, db: int) -> Seq<u8> {
    seq![(0x40 + (dr + 2) * 16 + (dg + 2) * 4 + (db + 2)) as u8]
}

/// Whether the deltas fit the two-byte luma chunk.
pub open spec fn luma_fits(dr: int, dg: int, db: int) -> bool {
    &&& -32 <= dg <= 31
    &&& -8 <= wrap8(dr - dg) <= 7
    &&& -8 <= wrap8(db - dg) <= 7
}

/// A luma chunk: the green delta biased by 32, then the red and blue
/// deltas relative to green, each biased by 8, red in the high nibble.
pub open spec fn luma_chunk(dr: int, dg: int, db: int) -> Seq<u8> {
    seq![(0x80 + dg + 32) as u8, ((wrap8(dr - dg) + 8) * 16 + wrap8(db - dg) + 8) as u8]
}

/// A literal color chunk: RGB for three channels, RGBA for four.
pub open spec fn raw_chunk(p: Pixel, channels: u8) -> Seq<u8> {
    if channels == 3 {
        seq![0xFEu8, p.r, p.g, p.b]
    } else {
        seq![0xFFu8, p.r, p.g, p.b, p.a]
    }
}

} // verus!
