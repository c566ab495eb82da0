//! A decoder for the chunk sequence, as the format defines it.

use vstd::prelude::*;
use crate::pixel::{opaque_black, slot, transparent_black, Pixel};

verus! {

/// The state of a decoder between two chunks.
pub struct Dec {
    /// The last pixel decoded, or opaque black before the first.
    pub prev: Pixel,
    /// The 64-slot color cache, written after every chunk.
    pub cache: Seq<Pixel>,
}

/// The decoder state before the first chunk.
pub open spec fn initial_dec() -> Dec {
    Dec { prev: opaque_black(), cache: Seq::new(64, |i: int| transparent_black()) }
}

/// The length of the chunk whose first byte is `b`.
pub open spec fn chunk_len(b: u8) -> nat {
    if b == 0xFE {
        4
    } else if b == 0xFF {
        5
    } else if 0x80 <= b < 0xC0 {
        2
    } else {
        1
    }
}

/// A byte plus a signed delta, wrapping modulo 256.
pub open spec fn add8(x: u8, d: int) -> u8 {
    ((x + d) % 256) as u8
}

/// `p` with the three color deltas applied; alpha is kept.
pub open spec fn add_delta(p: Pixel, dr: int, dg: int, db: int) -> Pixel {
    Pixel { r: add8(p.r, dr), g: add8(p.g, dg), b: add8(p.b, db), a: p.a }
}

/// The pixel a chunk other than a run stands for.
pub open spec fn chunk_pixel(c: Seq<u8>, d: Dec) -> Pixel {
    let b = c[0];
    if b == 0xFE {
        Pixel { r: c[1], g: c[2], b: c[3], a: d.prev.a }
    } else if b == 0xFF {
        Pixel { r: c[1], g: c[2], b: c[3], a: c[4] }
    } else if b < 0x40 {
        d.cache[b as int]
    } else if b < 0x80 {
        add_delta(d.prev, b / 16 % 4 - 2, b / 4 % 4 - 2, b % 4 - 2)
    } else {
        let dg = b % 64 - 32;
        add_delta(d.prev, dg + c[1] / 16 - 8, dg, dg + c[1] % 16 - 8)
    }
}

/// Whether `b` starts a run chunk.
pub open spec fn is_run_tag(b: u8) -> bool {
    0xC0 <= b <= 0xFD
}

/// The pixels one whole chunk stands for, and the state after it.
pub open spec fn decode_chunk(c: Seq<u8>, d: Dec) -> (Seq<Pixel>, Dec) {
    if is_run_tag(c[0]) {
        (
            Seq::new((c[0] % 64 + 1) as nat, |i: int| d.prev),
            Dec { prev: d.prev, cache: d.cache.update(slot(d.prev), d.prev) },
        )
    } else {
        let p = chunk_pixel(c, d);
        (seq![p], Dec { prev: p, cache: d.cache.update(slot(p), p) })
    }
}

/// Decodes a chunk sequence from state `d`: the pixels, the state after
/// them, and whether the bytes ended on a chunk boundary.
pub open spec fn decode(bytes: Seq<u8>, d: Dec) -> (Seq<Pixel>, Dec, bool)
    decreases bytes.len(),
{
    if bytes.len() == 0 {
        (seq![], d, true)
    } else {
        let n = chunk_len(bytes[0]);
        if n > bytes.len() {
            (seq![], d, false)
        } else {
            let first = decode_chunk(bytes.take(n as int), d);
            let rest = decode(bytes.skip(n as int), first.1);
            (first.0 + rest.0, rest.1, rest.2)
        }
    }
}

/// Decoding bytes that end on a chunk boundary, then more bytes, is
/// decoding the two in turn.
pub proof fn lemma_decode_append(a: Seq<u8>, b: Seq<u8>, d: Dec)
    requires
        decode(a, d).2,
    ensures
        ({
            let x = decode(a, d);
            let y = decode(b, x.1);
            decode(a + b, d) == (x.0 + y.0, y.1, y.2)
        }),
    decreases a.len(),
{
    if a.len() == 0 {
        assert(a + b =~= b);
        assert(decode(a, d).0 + decode(b, d).0 =~= decode(b, d).0);
    } else {
        let n = chunk_len(a[0]) as int;
        assert((a + b)[0] == a[0]);
        assert((a + b).take(n) =~= a.take(n));
        assert((a + b).skip(n) =~= a.skip(n) + b);
        let first = decode_chunk(a.take(n), d);
        lemma_decode_append(a.skip(n), b, first.1);
        let x = decode(a.skip(n), first.1);
        let y = decode(b, x.1);
        assert(first.0 + (x.0 + y.0) =~= (first.0 + x.0) + y.0);
    }
}

/// A single whole chunk decodes as `decode_chunk` says.
pub proof fn lemma_decode_one(c: Seq<u8>, d: Dec)
    requires
        c.len() >= 1,
        chunk_len(c[0]) == c.len(),
    ensures
        decode(c, d) == (decode_chunk(c, d).0, decode_chunk(c, d).1, true),
{
    let n = c.len() as int;
    assert(c.take(n) =~= c);
    assert(c.skip(n) =~= Seq::<u8>::empty());
    let first = decode_chunk(c.take(n), d);
    assert(decode(c.skip(n), first.1) == (Seq::<Pixel>::empty(), first.1, true));
    assert(first.0 + Seq::<Pixel>::empty() =~= first.0);
}

} // verus!
