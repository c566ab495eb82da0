use qoi_encode::encoder::encode;
use qoi_encode::pixel::{color_slot, pixel_at, Pixel};

const TERMINATOR: [u8; 8] = [0, 0, 0, 0, 0, 0, 0, 1];

fn header(width: u32, height: u32, channels: u8) -> Vec<u8> {
    let mut h = vec![0x71, 0x6f, 0x69, 0x66];
    h.extend_from_slice(&width.to_be_bytes());
    h.extend_from_slice(&height.to_be_bytes());
    h.push(channels);
    h.push(0);
    h
}

/// The chunk bytes between header and terminator, after checking both.
fn chunks(out: &[u8], width: u32, height: u32, channels: u8) -> Vec<u8> {
    assert!(out.len() >= 22);
    assert_eq!(&out[..14], header(width, height, channels).as_slice());
    assert_eq!(&out[out.len() - 8..], &TERMINATOR);
    out[14..out.len() - 8].to_vec()
}

fn encode_pixels(channels: u8, pixels: &[u8]) -> Vec<u8> {
    let n = (pixels.len() / channels as usize) as u32;
    let mut data = pixels.to_vec();
    let out = encode(n, 1, channels, &mut data);
    assert_eq!(data, pixels);
    chunks(&out, n, 1, channels)
}

/// A deterministic pseudo-random image with small and large steps mixed.
fn sample_image(n: usize, channels: u8, alpha: bool, seed: u32) -> Vec<u8> {
    let mut state = seed;
    let mut next = move || {
        state = state.wrapping_mul(1_103_515_245).wrapping_add(12_345);
        (state >> 16) as u8
    };
    let mut px = [0u8, 0, 0, 255];
    let mut data = Vec::new();
    for _ in 0..n {
        match next() % 6 {
            0 => {}
            1 => {
                for c in 0..3 {
                    px[c] = px[c].wrapping_add(next() % 4).wrapping_sub(2);
                }
            }
            2 => {
                let dg = (next() % 40) as i32 - 20;
                for c in 0..3 {
                    let d = dg + (next() % 12) as i32 - 6;
                    px[c] = (px[c] as i32 + d).rem_euclid(256) as u8;
                }
            }
            3 => px = [next(), next(), next(), if alpha { next() } else { 255 }],
            4 => px = [px[2], px[0], px[1], px[3]],
            _ => px = [0, 0, 0, 255],
        }
        data.extend_from_slice(&px[..channels as usize]);
    }
    data
}

#[test]
fn header_fields_are_big_endian() {
    let mut data = vec![1, 2, 3, 255];
    let out = encode(0x0102_0304, 0x0A0B_0C0D, 4, &mut data);
    assert_eq!(
        &out[..14],
        &[0x71, 0x6f, 0x69, 0x66, 1, 2, 3, 4, 0x0A, 0x0B, 0x0C, 0x0D, 4, 0]
    );
    let mut rgb = vec![1, 2, 3];
    let out = encode(u32::MAX, 0, 3, &mut rgb);
    assert_eq!(&out[..14], header(u32::MAX, 0, 3).as_slice());
}

#[test]
fn empty_buffer_is_header_and_terminator() {
    let mut data = Vec::new();
    let out = encode(0, 0, 4, &mut data);
    let mut expected = header(0, 0, 4);
    expected.extend_from_slice(&TERMINATOR);
    assert_eq!(out, expected);
}

#[test]
fn terminator_ends_every_stream() {
    for seed in 0..5 {
        let img = sample_image(200, 4, true, seed);
        let mut data = img.clone();
        let out = encode(200, 1, 4, &mut data);
        assert_eq!(&out[out.len() - 8..], &TERMINATOR);
    }
}

#[test]
fn single_opaque_black_pixel_is_one_run() {
    let mut data = vec![0, 0, 0, 255];
    let out = encode(1, 1, 4, &mut data);
    let mut expected = header(1, 1, 4);
    expected.push(0xC0);
    expected.extend_from_slice(&TERMINATOR);
    assert_eq!(out, expected);
}

#[test]
fn short_black_runs_are_one_chunk() {
    for n in 1..=62usize {
        let rgba: Vec<u8> = [0, 0, 0, 255].repeat(n);
        assert_eq!(encode_pixels(4, &rgba), vec![0xC0 | (n as u8 - 1)]);
        let rgb: Vec<u8> = [0, 0, 0].repeat(n);
        assert_eq!(encode_pixels(3, &rgb), vec![0xC0 | (n as u8 - 1)]);
    }
}

#[test]
fn long_black_runs_split_at_62() {
    assert_eq!(encode_pixels(4, &[0, 0, 0, 255].repeat(63)), vec![0xFD, 0xC0]);
    assert_eq!(encode_pixels(4, &[0, 0, 0, 255].repeat(124)), vec![0xFD, 0xFD]);
    assert_eq!(encode_pixels(3, &[0, 0, 0].repeat(130)), vec![0xFD, 0xFD, 0xC5]);
    for n in 63..400usize {
        let body = encode_pixels(4, &[0, 0, 0, 255].repeat(n));
        assert_eq!(body.len(), (n + 61) / 62);
        assert!(body.iter().all(|&b| (0xC0..=0xFD).contains(&b)));
        let total: usize = body.iter().map(|&b| (b & 0x3f) as usize + 1).sum();
        assert_eq!(total, n);
    }
}

#[test]
fn small_diff_is_one_byte() {
    let expected = 0x40 | ((1 + 2) << 4 | (0 + 2) << 2 | (-1i32 + 2) as u8);
    assert_eq!(expected, 0x79);
    assert_eq!(encode_pixels(4, &[1, 0, 255, 255]), vec![0x79]);
    assert_eq!(encode_pixels(3, &[10, 20, 30, 11, 20, 29]), vec![0xFE, 10, 20, 30, 0x79]);
}

#[test]
fn diff_wraps_around_byte_edges() {
    // (255, 0, 1) from (0, 0, 0): deltas -1, 0, +1 after wraparound.
    assert_eq!(encode_pixels(4, &[255, 0, 1, 255]), vec![0x5B]);
}

#[test]
fn luma_chunk_for_medium_deltas() {
    assert_eq!(encode_pixels(3, &[20, 25, 30]), vec![0xB9, 0x3D]);
}

#[test]
fn literal_chunks_follow_channel_count() {
    assert_eq!(encode_pixels(3, &[10, 20, 30]), vec![0xFE, 10, 20, 30]);
    assert_eq!(encode_pixels(4, &[10, 20, 30, 40]), vec![0xFF, 10, 20, 30, 40]);
}

#[test]
fn repeated_color_uses_the_cache() {
    let body = encode_pixels(4, &[10, 20, 30, 255, 200, 100, 50, 255, 10, 20, 30, 255]);
    assert_eq!(body, vec![0xFF, 10, 20, 30, 255, 0xFF, 200, 100, 50, 255, 0x09]);
}

#[test]
fn run_of_a_new_color() {
    assert_eq!(encode_pixels(3, &[5, 5, 5, 5, 5, 5, 5, 5, 5]), vec![0xA5, 0x88, 0xC1]);
}

#[test]
fn trailing_partial_pixel_is_ignored() {
    let mut data = vec![0, 0, 0, 255, 9, 9];
    let out = encode(1, 1, 4, &mut data);
    assert_eq!(chunks(&out, 1, 1, 4), vec![0xC0]);
    assert_eq!(data, vec![0, 0, 0, 255, 9, 9]);
}

#[test]
fn color_slot_is_deterministic() {
    let p = Pixel { r: 1, g: 2, b: 3, a: 255 };
    assert_eq!(color_slot(p), color_slot(p));
    assert_eq!(color_slot(p), (1 * 3 + 2 * 5 + 3 * 7 + 255 * 11) % 64);
    let rgb = [1u8, 2, 3];
    let q = pixel_at(&rgb, 3, 0);
    assert_eq!(q, p);
    assert_eq!(color_slot(q), 23);
    assert_eq!(color_slot(pixel_at(&[1, 2, 3, 7], 4, 0)), (3 + 10 + 21 + 77) % 64);
}

#[test]
fn opaque_images_round_trip_through_a_decoder() {
    for seed in 0..8 {
        for channels in [3u8, 4] {
            let img = sample_image(500, channels, false, seed);
            let mut data = img.clone();
            let out = encode(500, 1, channels, &mut data);
            let (h, decoded) = qoi::decode_to_vec(&out).unwrap();
            assert_eq!((h.width, h.height), (500, 1));
            assert_eq!(decoded, img);
        }
    }
}

#[test]
fn transparent_black_start_decodes_through_the_zeroed_cache() {
    // The cache starts all zero, so a first pixel equal to that value is
    // written as an index chunk; a decoder with the same zeroed cache reads it
    // back correctly.
    let img = vec![0, 0, 0, 0, 0, 0, 0, 0, 200, 10, 90, 7];
    assert_eq!(encode_pixels(4, &img), vec![0x00, 0xC0, 0xFF, 200, 10, 90, 7]);
    let mut data = img.clone();
    let out = encode(3, 1, 4, &mut data);
    let (_, decoded) = qoi::decode_to_vec(&out).unwrap();
    assert_eq!(decoded, img);
}

#[test]
fn alpha_change_in_a_small_step_is_not_kept() {
    // A diff chunk carries no alpha: the step to alpha 128 is lost, which a
    // format-conformant encoder would have written as a literal RGBA chunk.
    let img = vec![0, 0, 0, 255, 1, 0, 0, 128];
    assert_eq!(encode_pixels(4, &img), vec![0xC0, 0x7A]);
    let mut data = img.clone();
    let out = encode(2, 1, 4, &mut data);
    let (_, decoded) = qoi::decode_to_vec(&out).unwrap();
    assert_eq!(decoded, vec![0, 0, 0, 255, 1, 0, 0, 255]);
    assert_ne!(decoded, img);
}

#[test]
fn alpha_changes_in_literal_chunks_round_trip() {
    let img = vec![10, 20, 30, 40, 200, 100, 50, 60, 0, 250, 9, 0];
    let mut data = img.clone();
    let out = encode(3, 1, 4, &mut data);
    let (_, decoded) = qoi::decode_to_vec(&out).unwrap();
    assert_eq!(decoded, img);
}
