//! What the encoder writes for runs of the initial pixel.

use vstd::prelude::*;
use crate::encoder::{body, chunks_of, encoding, initial_scan, lemma_chunks_of_encoding, scan, Scan};
use crate::format::run_chunk;
use crate::pixel::{opaque_black, pixel_count, pixels_of, valid_channels, Pixel};

verus! {

/// Whether a byte is a run chunk (1 to 62 repetitions).
pub open spec fn is_run_chunk(b: u8) -> bool {
    0xC0 <= b <= 0xFD
}

/// The total number of pixels the run chunks in `s` stand for.
pub open spec fn run_total(s: Seq<u8>) -> int
    decreases s.len(),
{
    if s.len() == 0 {
        0
    } else {
        run_total(s.drop_last()) + (s.last() - 0xC0 + 1)
    }
}

/// `m` full run chunks.
pub open spec fn full_runs(m: nat) -> Seq<u8> {
    Seq::new(m, |j: int| 0xFDu8)
}

proof fn lemma_scan_black(pixels: Seq<Pixel>, channels: u8)
    requires
        forall|j: int| 0 <= j < pixels.len() ==> pixels[j] == opaque_black(),
    ensures
        pixels.len() == 0 ==> scan(pixels, channels) == (initial_scan(), Seq::<u8>::empty()),
        pixels.len() >= 1 ==> scan(pixels, channels) == (
            Scan {
                prev: opaque_black(),
                run: ((pixels.len() - 1) % 62 + 1) as nat,
                cache: initial_scan().cache,
            },
            full_runs(((pixels.len() - 1) / 62) as nat),
        ),
    decreases pixels.len(),
{
    if pixels.len() == 0 {
        return;
    }
    let k = pixels.len() as int;
    lemma_scan_black(pixels.drop_last(), channels);
    if k == 1 {
        assert(full_runs(0) =~= Seq::<u8>::empty() + Seq::<u8>::empty());
    } else {
        let r = (k - 2) % 62 + 1;
        if r < 62 {
            assert((k - 1) % 62 == r && (k - 1) / 62 == (k - 2) / 62);
            assert(full_runs(((k - 1) / 62) as nat) =~= full_runs(((k - 2) / 62) as nat) + seq![]);
        } else {
            assert((k - 1) % 62 == 0 && (k - 1) / 62 == (k - 2) / 62 + 1);
            assert(full_runs(((k - 1) / 62) as nat) =~= full_runs(((k - 2) / 62) as nat) + run_chunk(62));
        }
    }
}

proof fn lemma_run_total_full(m: nat, last: u8)
    ensures
        run_total(full_runs(m)) == 62 * m,
        run_total(full_runs(m) + seq![last]) == 62 * m + last - 0xC0 + 1,
    decreases m,
{
    let s = full_runs(m) + seq![last];
    assert(s.drop_last() =~= full_runs(m));
    assert(s.last() == last);
    if m > 0 {
        lemma_run_total_full((m - 1) as nat, last);
        assert(full_runs(m).drop_last() =~= full_runs((m - 1) as nat));
        assert(full_runs(m).last() == 0xFD);
    } else {
        assert(full_runs(m) =~= Seq::<u8>::empty());
    }
}

/// A buffer of `n >= 1` opaque-black pixels encodes as `(n - 1) / 62` full
/// run chunks followed by one run chunk for the rest: `ceil(n / 62)` run
/// chunks in all, each of at most 62 pixels, standing for `n` pixels.
pub proof fn lemma_black_runs(width: u32, height: u32, channels: u8, data: Seq<u8>)
    requires
        valid_channels(channels),
        pixel_count(data, channels) >= 1,
        forall|j: int| 0 <= j < pixel_count(data, channels) ==> #[trigger] pixels_of(data, channels)[j] == opaque_black(),
    ensures
        ({
            let n = pixel_count(data, channels) as int;
            let chunks = chunks_of(encoding(width, height, channels, data));
            &&& chunks == full_runs(((n - 1) / 62) as nat) + run_chunk((n - 1) % 62 + 1)
            &&& chunks.len() == (n + 61) / 62
            &&& forall|j: int| 0 <= j < chunks.len() ==> is_run_chunk(#[trigger] chunks[j])
            &&& run_total(chunks) == n
        }),
{
    let pixels = pixels_of(data, channels);
    let n = pixels.len() as int;
    lemma_scan_black(pixels, channels);
    let m = ((n - 1) / 62) as nat;
    let last = run_chunk((n - 1) % 62 + 1);
    assert(body(pixels, channels) =~= full_runs(m) + last);
    lemma_chunks_of_encoding(width, height, channels, data);
    lemma_run_total_full(m, last[0]);
    assert(full_runs(m) + last =~= full_runs(m) + seq![last[0]]);
}

/// A buffer of `n` opaque-black pixels, `1 <= n <= 62`, encodes as the single
/// run chunk `0xC0 | (n - 1)`.
pub proof fn lemma_black_single_run(width: u32, height: u32, channels: u8, data: Seq<u8>)
    requires
        valid_channels(channels),
        1 <= pixel_count(data, channels) <= 62,
        forall|j: int| 0 <= j < pixel_count(data, channels) ==> #[trigger] pixels_of(data, channels)[j] == opaque_black(),
    ensures
        chunks_of(encoding(width, height, channels, data)) == seq![
            (0xC0 | (pixel_count(data, channels) - 1) as u8) as u8,
        ],
{
    let n = pixel_count(data, channels) as int;
    lemma_black_runs(width, height, channels, data);
    assert(full_runs(0) + run_chunk(n) =~= seq![(0xC0 + n - 1) as u8]);
    let x = (n - 1) as u8;
    assert((0xC0 | x) == 0xC0 + x) by (bit_vector)
        requires
            x < 64,
    ;
}

} // verus!
