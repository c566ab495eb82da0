//! Decoding the encoder's chunks gives back the pixels.

use vstd::prelude::*;
use vstd::arithmetic::div_mod::{lemma_fundamental_div_mod, lemma_mod_multiples_vanish, lemma_small_mod};
use crate::decoder::{
    add8, chunk_len, chunk_pixel, decode, decode_chunk, initial_dec, is_run_tag,
    lemma_decode_append, lemma_decode_one, Dec,
};
use crate::encoder::{
    body, chunks_of, classify, encoding, flush, lemma_chunks_of_encoding, scan, Scan,
};
use crate::format::{
    delta, diff_chunk, index_chunk, luma_chunk, luma_fits, run_chunk, small_delta,
    wrap8,
};
use crate::pixel::{opaque_black, pixels_of, slot, transparent_black, valid_channels, Pixel};

verus! {

/// Whether the scan in state `s` writes `p` as a diff or luma chunk although
/// its alpha differs from the previous pixel's: those chunks carry no alpha.
pub open spec fn drops_alpha(s: Scan, p: Pixel) -> bool {
    let dr = delta(p.r, s.prev.r);
    let dg = delta(p.g, s.prev.g);
    let db = delta(p.b, s.prev.b);
    &&& p.a != s.prev.a
    &&& s.cache[slot(p)] != p
    &&& ((small_delta(dr) && small_delta(dg) && small_delta(db)) || luma_fits(dr, dg, db))
}

/// Whether no pixel of the scan over `pixels` has its alpha change dropped.
pub open spec fn keeps_alpha(pixels: Seq<Pixel>, channels: u8) -> bool
    decreases pixels.len(),
{
    pixels.len() == 0 || (keeps_alpha(pixels.drop_last(), channels) && !drops_alpha(
        scan(pixels.drop_last(), channels).0,
        pixels.last(),
    ))
}

/// The decoder's cache agrees with the encoder's, but for the slot of opaque
/// black, which a run of the initial pixel fills in the decoder only.
spec fn caches_agree(e: Seq<Pixel>, d: Seq<Pixel>) -> bool {
    forall|i: int|
        0 <= i < 64 ==> #[trigger] d[i] == e[i] || (i == slot(opaque_black()) && d[i]
            == opaque_black() && e[i] == transparent_black())
}

/// The encoder's cache holds its previous pixel, unless that is still the
/// initial one and its slot is empty.
spec fn prev_cached(s: Scan) -> bool {
    s.cache[slot(s.prev)] == s.prev || (s.prev == opaque_black() && s.cache[slot(opaque_black())]
        == transparent_black())
}

proof fn lemma_add8(x: u8, d: int, y: u8, k: int)
    requires
        d == y - x + 256 * k,
    ensures
        add8(x, d) == y,
{
    lemma_mod_multiples_vanish(k, y as int, 256);
    lemma_small_mod(y as nat, 256);
    assert(x + d == 256 * k + y);
}

proof fn lemma_wrap8(v: int)
    ensures
        wrap8(v) == v - 256 * ((v + 128) / 256),
        -128 <= wrap8(v) <= 127,
{
    lemma_fundamental_div_mod(v + 128, 256);
}

proof fn lemma_add_delta(x: u8, y: u8)
    ensures
        add8(x, delta(y, x)) == y,
{
    lemma_wrap8(y - x);
    lemma_add8(x, delta(y, x), y, -((y - x + 128) / 256));
}

proof fn lemma_add_luma(x: u8, y: u8, dg: int)
    ensures
        add8(x, dg + wrap8(delta(y, x) - dg)) == y,
{
    let dr = delta(y, x);
    lemma_wrap8(y - x);
    lemma_wrap8(dr - dg);
    lemma_add8(x, dg + wrap8(dr - dg), y, -((y - x + 128) / 256) - ((dr - dg + 128) / 256));
}

proof fn lemma_diff_decodes(prev: Pixel, p: Pixel, d: Dec)
    requires
        d.prev == prev,
        p.a == prev.a,
        small_delta(delta(p.r, prev.r)),
        small_delta(delta(p.g, prev.g)),
        small_delta(delta(p.b, prev.b)),
    ensures
        ({
            let c = diff_chunk(delta(p.r, prev.r), delta(p.g, prev.g), delta(p.b, prev.b));
            &&& chunk_len(c[0]) == c.len()
            &&& !is_run_tag(c[0])
            &&& chunk_pixel(c, d) == p
        }),
{
    let dr = delta(p.r, prev.r);
    let dg = delta(p.g, prev.g);
    let db = delta(p.b, prev.b);
    let b = (0x40 + (dr + 2) * 16 + (dg + 2) * 4 + (db + 2)) as u8;
    assert(b / 16 % 4 - 2 == dr && b / 4 % 4 - 2 == dg && b % 4 - 2 == db);
    lemma_add_delta(prev.r, p.r);
    lemma_add_delta(prev.g, p.g);
    lemma_add_delta(prev.b, p.b);
}

proof fn lemma_luma_decodes(prev: Pixel, p: Pixel, d: Dec)
    requires
        d.prev == prev,
        p.a == prev.a,
        luma_fits(delta(p.r, prev.r), delta(p.g, prev.g), delta(p.b, prev.b)),
    ensures
        ({
            let c = luma_chunk(delta(p.r, prev.r), delta(p.g, prev.g), delta(p.b, prev.b));
            &&& chunk_len(c[0]) == c.len()
            &&& !is_run_tag(c[0])
            &&& chunk_pixel(c, d) == p
        }),
{
    let dr = delta(p.r, prev.r);
    let dg = delta(p.g, prev.g);
    let db = delta(p.b, prev.b);
    let lr = wrap8(dr - dg);
    let lb = wrap8(db - dg);
    let b0 = (0x80 + dg + 32) as u8;
    let b1 = ((lr + 8) * 16 + lb + 8) as u8;
    assert(b0 % 64 - 32 == dg);
    assert(b1 / 16 - 8 == lr && b1 % 16 - 8 == lb);
    lemma_add_delta(prev.g, p.g);
    lemma_add_luma(prev.r, p.r, dg);
    lemma_add_luma(prev.b, p.b, dg);
}

proof fn lemma_classify_decodes(s: Scan, d: Dec, p: Pixel, channels: u8)
    requires
        valid_channels(channels),
        s.cache.len() == 64,
        d.cache.len() == 64,
        caches_agree(s.cache, d.cache),
        d.prev == s.prev,
        p != s.prev,
        !drops_alpha(s, p),
        channels == 3 ==> p.a == 255 && s.prev.a == 255,
    ensures
        ({
            let c = classify(s, p, channels);
            let d2 = Dec { prev: p, cache: d.cache.update(slot(p), p) };
            &&& decode(c.1, d) == (seq![p], d2, true)
            &&& c.0.prev == p
            &&& c.0.run == 0
            &&& c.0.cache.len() == 64
            &&& caches_agree(c.0.cache, d2.cache)
            &&& prev_cached(c.0)
        }),
{
    let c = classify(s, p, channels);
    let h = slot(p);
    let dr = delta(p.r, s.prev.r);
    let dg = delta(p.g, s.prev.g);
    let db = delta(p.b, s.prev.b);
    if s.cache[h] == p {
        assert(c.1 == index_chunk(h));
        assert(d.cache[h] == p);
        assert(chunk_pixel(c.1, d) == p);
    } else if small_delta(dr) && small_delta(dg) && small_delta(db) {
        lemma_diff_decodes(s.prev, p, d);
    } else if luma_fits(dr, dg, db) {
        lemma_luma_decodes(s.prev, p, d);
    } else {
        assert(chunk_pixel(c.1, d) == p);
    }
    lemma_decode_one(c.1, d);
    assert(decode_chunk(c.1, d).1 == Dec { prev: p, cache: d.cache.update(slot(p), p) });
}

proof fn lemma_run_decodes(s: Scan, d: Dec)
    requires
        1 <= s.run <= 62,
        s.cache.len() == 64,
        d.cache.len() == 64,
        caches_agree(s.cache, d.cache),
        prev_cached(s),
        d.prev == s.prev,
    ensures
        ({
            let d2 = Dec { prev: d.prev, cache: d.cache.update(slot(d.prev), d.prev) };
            &&& decode(run_chunk(s.run as int), d) == (
                Seq::new(s.run, |i: int| s.prev),
                d2,
                true,
            )
            &&& caches_agree(s.cache, d2.cache)
        }),
{
    let c = run_chunk(s.run as int);
    assert(is_run_tag(c[0]));
    assert(c[0] % 64 + 1 == s.run);
    lemma_decode_one(c, d);
    assert(decode_chunk(c, d).0 =~= Seq::new(s.run, |i: int| s.prev));
}

/// What holds of the scan over `pixels` with respect to a decoder that
/// reads the chunks written so far.
#[verifier::opaque]
spec fn scan_decodes(pixels: Seq<Pixel>, channels: u8) -> bool {
    let s = scan(pixels, channels);
    let d = decode(s.1, initial_dec());
    &&& d.2
    &&& s.0.run <= 62
    &&& s.0.run <= pixels.len()
    &&& d.0 == pixels.take(pixels.len() - s.0.run)
    &&& forall|j: int| pixels.len() - s.0.run <= j < pixels.len() ==> #[trigger] pixels[j] == s.0.prev
    &&& d.1.prev == s.0.prev
    &&& s.0.cache.len() == 64
    &&& d.1.cache.len() == 64
    &&& caches_agree(s.0.cache, d.1.cache)
    &&& prev_cached(s.0)
    &&& (channels == 3 ==> s.0.prev.a == 255)
}

proof fn lemma_step_extends_run(pixels: Seq<Pixel>, channels: u8)
    requires
        pixels.len() > 0,
        scan_decodes(pixels.drop_last(), channels),
        pixels.last() == scan(pixels.drop_last(), channels).0.prev,
        scan(pixels.drop_last(), channels).0.run < 62,
    ensures
        scan_decodes(pixels, channels),
{
    reveal(scan_decodes);
    let k = pixels.len() - 1;
    let rest = pixels.drop_last();
    let s = scan(rest, channels).0;
    assert(rest.take(k - s.run) =~= pixels.take(k - s.run));
    assert(scan(pixels, channels).1 =~= scan(rest, channels).1 + seq![]);
    assert forall|j: int| pixels.len() - (s.run + 1) <= j < pixels.len() implies #[trigger] pixels[j] == s.prev by {
        if j < k {
            assert(rest[j] == pixels[j]);
        }
    }
}

proof fn lemma_step_full_run(pixels: Seq<Pixel>, channels: u8)
    requires
        pixels.len() > 0,
        scan_decodes(pixels.drop_last(), channels),
        pixels.last() == scan(pixels.drop_last(), channels).0.prev,
        scan(pixels.drop_last(), channels).0.run == 62,
    ensures
        scan_decodes(pixels, channels),
{
    reveal(scan_decodes);
    let k = pixels.len() - 1;
    let rest = pixels.drop_last();
    let s = scan(rest, channels).0;
    let out = scan(rest, channels).1;
    let d = decode(out, initial_dec());
    assert(rest.take(k - s.run) =~= pixels.take(k - s.run));
    lemma_decode_append(out, run_chunk(s.run as int), initial_dec());
    lemma_run_decodes(s, d.1);
    assert forall|j: int| k - 62 <= j < k implies #[trigger] pixels[j] == s.prev by {
        assert(rest[j] == pixels[j]);
    }
    assert(pixels.take(k - s.run) + Seq::new(s.run, |i: int| s.prev) =~= pixels.take(k));
}

proof fn lemma_step_classifies(pixels: Seq<Pixel>, channels: u8)
    requires
        valid_channels(channels),
        pixels.len() > 0,
        scan_decodes(pixels.drop_last(), channels),
        pixels.last() != scan(pixels.drop_last(), channels).0.prev,
        !drops_alpha(scan(pixels.drop_last(), channels).0, pixels.last()),
        channels == 3 ==> pixels.last().a == 255,
    ensures
        scan_decodes(pixels, channels),
{
    reveal(scan_decodes);
    let k = pixels.len() - 1;
    let rest = pixels.drop_last();
    let s = scan(rest, channels).0;
    let out = scan(rest, channels).1;
    let d = decode(out, initial_dec());
    let p = pixels.last();
    assert(rest.take(k - s.run) =~= pixels.take(k - s.run));
    let s0 = Scan { run: 0, ..s };
    let c = classify(s0, p, channels);
    let f = flush(s);
    let d1 = decode(out + f, initial_dec());
    if s.run != 0 {
        lemma_decode_append(out, f, initial_dec());
        lemma_run_decodes(s, d.1);
        assert forall|j: int| k - s.run <= j < k implies #[trigger] pixels[j] == s.prev by {
            assert(rest[j] == pixels[j]);
        }
        assert(pixels.take(k - s.run) + Seq::new(s.run, |i: int| s.prev) =~= pixels.take(k));
    } else {
        assert(out + f =~= out);
    }
    assert(d1.2 && d1.0 == pixels.take(k) && d1.1.prev == s.prev);
    assert(caches_agree(s.cache, d1.1.cache));
    lemma_classify_decodes(s0, d1.1, p, channels);
    lemma_decode_append(out + f, c.1, initial_dec());
    assert(out + (f + c.1) =~= (out + f) + c.1);
    assert(pixels.take(k) + seq![p] =~= pixels.take(k + 1));
    assert(pixels.take(k + 1) =~= pixels.take(pixels.len() - 0));
}

proof fn lemma_scan_decodes(pixels: Seq<Pixel>, channels: u8)
    requires
        valid_channels(channels),
        keeps_alpha(pixels, channels),
        channels == 3 ==> forall|j: int| 0 <= j < pixels.len() ==> #[trigger] pixels[j].a == 255,
    ensures
        scan_decodes(pixels, channels),
    decreases pixels.len(),
{
    if pixels.len() == 0 {
        reveal(scan_decodes);
        let d = decode(Seq::<u8>::empty(), initial_dec());
        assert(d.0 =~= pixels.take(0));
        return;
    }
    let rest = pixels.drop_last();
    assert forall|j: int| 0 <= j < rest.len() implies rest[j] == pixels[j] by {}
    lemma_scan_decodes(rest, channels);
    let s = scan(rest, channels).0;
    let p = pixels.last();
    if p == s.prev && s.run < 62 {
        lemma_step_extends_run(pixels, channels);
    } else if s.run != 0 && p == s.prev {
        reveal(scan_decodes);
        lemma_step_full_run(pixels, channels);
    } else {
        lemma_step_classifies(pixels, channels);
    }
}

proof fn lemma_scan_prev_opaque(pixels: Seq<Pixel>, channels: u8)
    requires
        forall|j: int| 0 <= j < pixels.len() ==> #[trigger] pixels[j].a == 255,
    ensures
        scan(pixels, channels).0.prev.a == 255,
        keeps_alpha(pixels, channels),
    decreases pixels.len(),
{
    if pixels.len() > 0 {
        let rest = pixels.drop_last();
        assert forall|j: int| 0 <= j < rest.len() implies rest[j].a == 255 by {
            assert(rest[j] == pixels[j]);
        }
        lemma_scan_prev_opaque(rest, channels);
    }
}

/// Round trip: decoding the chunk bytes of an encoded buffer, as the format
/// prescribes, gives back its whole pixels exactly, whenever the encoder
/// never writes an alpha change as a diff or luma chunk (which carry none).
pub proof fn lemma_round_trip(width: u32, height: u32, channels: u8, data: Seq<u8>)
    requires
        valid_channels(channels),
        keeps_alpha(pixels_of(data, channels), channels),
    ensures
        ({
            let d = decode(chunks_of(encoding(width, height, channels, data)), initial_dec());
            d.2 && d.0 == pixels_of(data, channels)
        }),
{
    let pixels = pixels_of(data, channels);
    lemma_chunks_of_encoding(width, height, channels, data);
    lemma_scan_decodes(pixels, channels);
    reveal(scan_decodes);
    let s = scan(pixels, channels);
    let d = decode(s.1, initial_dec());
    if s.0.run == 0 {
        assert(body(pixels, channels) =~= s.1);
        assert(pixels.take(pixels.len() as int) =~= pixels);
    } else {
        lemma_decode_append(s.1, flush(s.0), initial_dec());
        lemma_run_decodes(s.0, d.1);
        assert(pixels.take(pixels.len() - s.0.run) + Seq::new(s.0.run, |i: int| s.0.prev) =~= pixels);
    }
}

/// Round trip for opaque buffers, every RGB buffer among them: decoding the
/// chunk bytes gives back the whole pixels exactly.
pub proof fn lemma_round_trip_opaque(width: u32, height: u32, channels: u8, data: Seq<u8>)
    requires
        valid_channels(channels),
        channels == 3 || forall|j: int|
            0 <= j < pixels_of(data, channels).len() ==> #[trigger] pixels_of(data, channels)[j].a == 255,
    ensures
        ({
            let d = decode(chunks_of(encoding(width, height, channels, data)), initial_dec());
            d.2 && d.0 == pixels_of(data, channels)
        }),
{
    lemma_scan_prev_opaque(pixels_of(data, channels), channels);
    lemma_round_trip(width, height, channels, data);
}

} // verus!
