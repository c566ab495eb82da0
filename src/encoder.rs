//! The encoding pass: its specification as a scan over pixels, and the
//! executable encoder proved against it.

use vstd::prelude::*;
use crate::format::{
    be32, delta, diff_chunk, header, index_chunk, luma_chunk, luma_fits, magic, raw_chunk,
    run_chunk, small_delta, terminator, wrap8, MAX_RUN,
};
use crate::pixel::{
    color_slot, opaque_black, pixel_at, pixels_of, slot,
    transparent_black, valid_channels, Pixel,
};

verus! {

/// The state of one encoding pass between two pixels.
pub struct Scan {
    /// The last pixel that was encoded, or opaque black before the first.
    pub prev: Pixel,
    /// How many pixels equal to `prev` wait to be written as a run.
    pub run: nat,
    /// The 64-slot color cache.
    pub cache: Seq<Pixel>,
}

/// The state before the first pixel.
pub open spec fn initial_scan() -> Scan {
    Scan { prev: opaque_black(), run: 0, cache: Seq::new(64, |i: int| transparent_black()) }
}

/// Encodes `p` as an index, diff, luma or literal chunk, in that order of
/// preference; `s` has no pending run.
pub open spec fn classify(s: Scan, p: Pixel, channels: u8) -> (Scan, Seq<u8>) {
    let h = slot(p);
    if s.cache[h] == p {
        (Scan { prev: p, run: 0, cache: s.cache }, index_chunk(h))
    } else {
        let next = Scan { prev: p, run: 0, cache: s.cache.update(h, p) };
        let dr = delta(p.r, s.prev.r);
        let dg = delta(p.g, s.prev.g);
        let db = delta(p.b, s.prev.b);
        if small_delta(dr) && small_delta(dg) && small_delta(db) {
            (next, diff_chunk(dr, dg, db))
        } else if luma_fits(dr, dg, db) {
            (next, luma_chunk(dr, dg, db))
        } else {
            (next, raw_chunk(p, channels))
        }
    }
}

/// The chunk that writes out a pending run, if there is one.
pub open spec fn flush(s: Scan) -> Seq<u8> {
    if s.run != 0 {
        run_chunk(s.run as int)
    } else {
        seq![]
    }
}

/// One pixel of the scan: extend the run, or write the run out and then
/// either start a new run (the run was full) or classify the pixel.
pub open spec fn step(s: Scan, p: Pixel, channels: u8) -> (Scan, Seq<u8>) {
    if p == s.prev && s.run < MAX_RUN {
        (Scan { run: s.run + 1, ..s }, seq![])
    } else if s.run != 0 && p == s.prev {
        (Scan { run: 1, ..s }, run_chunk(s.run as int))
    } else {
        let c = classify(Scan { run: 0, ..s }, p, channels);
        (c.0, flush(s) + c.1)
    }
}

/// The state after scanning `pixels`, and the chunks written so far.
pub open spec fn scan(pixels: Seq<Pixel>, channels: u8) -> (Scan, Seq<u8>)
    decreases pixels.len(),
{
    if pixels.len() == 0 {
        (initial_scan(), seq![])
    } else {
        let before = scan(pixels.drop_last(), channels);
        let s = step(before.0, pixels.last(), channels);
        (s.0, before.1 + s.1)
    }
}

/// The chunk sequence for `pixels`, the last pending run included.
pub open spec fn body(pixels: Seq<Pixel>, channels: u8) -> Seq<u8> {
    let s = scan(pixels, channels);
    s.1 + flush(s.0)
}

/// The whole stream for a buffer.
pub open spec fn encoding(width: u32, height: u32, channels: u8, data: Seq<u8>) -> Seq<u8> {
    header(width, height, channels) + body(pixels_of(data, channels), channels) + terminator()
}

/// The chunk bytes of a stream: everything between header and terminator.
pub open spec fn chunks_of(stream: Seq<u8>) -> Seq<u8> {
    stream.subrange(14, stream.len() - 8)
}

/// The chunk bytes of an encoded buffer are its chunk sequence.
pub proof fn lemma_chunks_of_encoding(width: u32, height: u32, channels: u8, data: Seq<u8>)
    ensures
        chunks_of(encoding(width, height, channels, data)) == body(pixels_of(data, channels), channels),
{
    assert(header(width, height, channels).len() == 14);
    assert(chunks_of(encoding(width, height, channels, data)) =~= body(pixels_of(data, channels), channels));
}

/// `x` reduced to the signed 8-bit range by two's-complement wraparound.
fn wrap_i8(x: i16) -> (r: i16)
    requires
        -384 < x < 384,
    ensures
        r as int == wrap8(x as int),
        -128 <= r <= 127,
{
    if x > 127 {
        x - 256
    } else if x < -128 {
        x + 256
    } else {
        x
    }
}

/// Appends `x` as four big-endian bytes.
fn push_be32(out: &mut Vec<u8>, x: u32)
    ensures
        final(out)@ == old(out)@ + be32(x),
{
    out.push((x / 0x100_0000) as u8);
    out.push((x / 0x1_0000 % 0x100) as u8);
    out.push((x / 0x100 % 0x100) as u8);
    out.push((x % 0x100) as u8);
    assert(final(out)@ =~= old(out)@ + be32(x));
}

/// Appends the chunk for `p` that `classify` gives, and updates the cache
/// as it does.
fn push_classified(prev: Pixel, cache: &mut Vec<Pixel>, p: Pixel, channels: u8, out: &mut Vec<u8>)
    requires
        old(cache)@.len() == 64,
    ensures
        ({
            let c = classify(Scan { prev, run: 0, cache: old(cache)@ }, p, channels);
            &&& final(cache)@ == c.0.cache
            &&& final(out)@ == old(out)@ + c.1
        }),
{
    let h = color_slot(p);
    if cache[h] == p {
        out.push(h as u8);
        assert(final(out)@ =~= old(out)@ + index_chunk(h as int));
        return;
    }
    cache[h] = p;
    let dr = wrap_i8(p.r as i16 - prev.r as i16);
    let dg = wrap_i8(p.g as i16 - prev.g as i16);
    let db = wrap_i8(p.b as i16 - prev.b as i16);
    if -2 <= dr && dr <= 1 && -2 <= dg && dg <= 1 && -2 <= db && db <= 1 {
        out.push((0x40 + (dr + 2) * 16 + (dg + 2) * 4 + (db + 2)) as u8);
        assert(final(out)@ =~= old(out)@ + diff_chunk(dr as int, dg as int, db as int));
        return;
    }
    if -32 <= dg && dg <= 31 {
        let lr = wrap_i8(dr - dg);
        let lb = wrap_i8(db - dg);
        if -8 <= lr && lr <= 7 && -8 <= lb && lb <= 7 {
            out.push((0x80 + dg + 32) as u8);
            out.push(((lr + 8) * 16 + lb + 8) as u8);
            assert(final(out)@ =~= old(out)@ + luma_chunk(dr as int, dg as int, db as int));
            return;
        }
    }
    if channels == 3 {
        out.push(0xFE);
        out.push(p.r);
        out.push(p.g);
        out.push(p.b);
    } else {
        out.push(0xFF);
        out.push(p.r);
        out.push(p.g);
        out.push(p.b);
        out.push(p.a);
    }
    assert(final(out)@ =~= old(out)@ + raw_chunk(p, channels));
}

/// Encodes a buffer of interleaved RGB (`channels == 3`) or RGBA
/// (`channels == 4`) pixels, row-major, into a QOI stream: the header, one
/// chunk per run or per classified pixel, and the terminator.
///
/// `width` and `height` are written to the header as given; the chunks cover
/// the whole pixels in `data`, and a trailing partial pixel is ignored. The
/// buffer is left as it was.
///
/// Two traits of the chunk choice are kept on purpose. The cache starts all
/// zero and a hit is plain equality, so a transparent black pixel can be
/// written as an index chunk before any pixel was stored in its slot; a
/// decoder whose cache starts zeroed reads it back unchanged. Diff and luma
/// chunks are chosen on the color channels alone and carry no alpha, so an
/// alpha change in such a step is not kept (see `roundtrip::keeps_alpha`).
pub fn encode(width: u32, height: u32, channels: u8, data: &mut Vec<u8>) -> (r: Vec<u8>)
    requires
        valid_channels(channels),
    ensures
        final(data)@ == old(data)@,
        r@ == encoding(width, height, channels, old(data)@),
        r@.len() >= 22,
        r@.subrange(0, 4) == magic(),
        r@.subrange(4, 8) == be32(width),
        r@.subrange(8, 12) == be32(height),
        r@[12] == channels,
        r@[13] == 0,
        r@.subrange(r@.len() - 8, r@.len() as int) == terminator(),
{
    let mut out: Vec<u8> = Vec::new();
    out.push(0x71);
    out.push(0x6f);
    out.push(0x69);
    out.push(0x66);
    push_be32(&mut out, width);
    push_be32(&mut out, height);
    out.push(channels);
    out.push(0);
    assert(out@ =~= header(width, height, channels));

    let mut cache: Vec<Pixel> = Vec::new();
    while cache.len() < 64
        invariant
            cache@.len() <= 64,
            forall|k: int| 0 <= k < cache@.len() ==> cache@[k] == transparent_black(),
        decreases 64 - cache@.len(),
    {
        cache.push(Pixel { r: 0, g: 0, b: 0, a: 0 });
    }
    assert(cache@ =~= initial_scan().cache);

    let mut prev = Pixel { r: 0, g: 0, b: 0, a: 255 };
    let mut run: u8 = 0;
    let n = data.len() / (channels as usize);
    let ghost pixels = pixels_of(data@, channels);
    let mut i: usize = 0;
    assert(pixels.take(0) =~= Seq::<Pixel>::empty());
    while i < n
        invariant
            valid_channels(channels),
            data@ == old(data)@,
            pixels == pixels_of(data@, channels),
            n == pixels.len(),
            i <= n,
            cache@.len() == 64,
            run <= MAX_RUN,
            scan(pixels.take(i as int), channels).0 == (Scan { prev, run: run as nat, cache: cache@ }),
            out@ == header(width, height, channels) + scan(pixels.take(i as int), channels).1,
        decreases n - i,
    {
        let p = pixel_at(data.as_slice(), channels, i);
        assert(pixels.take(i + 1).drop_last() =~= pixels.take(i as int));
        assert(pixels.take(i + 1).last() == p);
        let ghost out_before = out@;
        if p == prev && run < MAX_RUN {
            run = run + 1;
            assert(out@ =~= out_before + seq![]);
        } else if run != 0 && p == prev {
            out.push(0xC0 + run - 1);
            run = 1;
        } else {
            if run != 0 {
                out.push(0xC0 + run - 1);
                run = 0;
            }
            push_classified(prev, &mut cache, p, channels, &mut out);
            prev = p;
        }
        i = i + 1;
        proof {
            let before = scan(pixels.take(i - 1), channels);
            let st = step(before.0, p, channels);
            assert(out@ =~= out_before + st.1);
        }
    }
    assert(pixels.take(n as int) =~= pixels);
    let ghost before_end = out@;
    if run != 0 {
        out.push(0xC0 + run - 1);
    }
    let mut k: usize = 0;
    while k < 7
        invariant
            k <= 7,
            out@ == before_end + flush(Scan { prev, run: run as nat, cache: cache@ }) + Seq::new(k as nat, |j: int| 0u8),
        decreases 7 - k,
    {
        out.push(0);
        k = k + 1;
        assert(out@ =~= before_end + flush(Scan { prev, run: run as nat, cache: cache@ }) + Seq::new(k as nat, |j: int| 0u8));
    }
    out.push(1);
    assert(out@ =~= encoding(width, height, channels, data@));
    assert(out@.subrange(0, 4) =~= magic());
    assert(out@.subrange(4, 8) =~= be32(width));
    assert(out@.subrange(8, 12) =~= be32(height));
    assert(out@.subrange(out@.len() - 8, out@.len() as int) =~= terminator());
    out
}

} // verus!
