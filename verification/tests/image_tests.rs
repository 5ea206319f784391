use lib::checksum::adler32;
use lib::deflate::zlib_compress;
use lib::image::{crc32, filter_abs_sum, push_best_filter, Image};

#[test]
fn png_header_signature() {
    let img = Image::new(4, 4, [128, 64, 32]);
    let bytes = img.encode_png();
    assert_eq!(&bytes[..8], &[0x89, 0x50, 0x4E, 0x47, 0x0D, 0x0A, 0x1A, 0x0A]);
}

#[test]
fn png_encoding_is_deterministic() {
    let img = Image::new(8, 8, [255, 0, 128]);
    assert_eq!(img.encode_png(), img.encode_png());
}

#[test]
fn filter_abs_sum_treats_bytes_as_signed() {
    assert_eq!(filter_abs_sum(&[0x00, 0x01, 0xFF, 0x80]), 130);
}

#[test]
fn sub_filter_chosen_and_correct_for_horizontal_ramp() {
    let row: Vec<u8> = vec![10, 0, 0, 20, 0, 0, 30, 0, 0, 40, 0, 0];
    let mut out = Vec::new();
    push_best_filter(&mut out, &row, None);
    assert_eq!(out[0], 1, "horizontal ramp must pick Sub(1)");
    assert_eq!(&out[1..], &[10, 0, 0, 10, 0, 0, 10, 0, 0, 10, 0, 0]);
}

#[test]
fn up_filter_chosen_and_correct_for_vertical_repeat() {
    let prev: Vec<u8> = vec![50, 60, 70, 80, 90, 100];
    let row = prev.clone();
    let mut out = Vec::new();
    push_best_filter(&mut out, &row, Some(&prev));
    assert_eq!(out[0], 2, "row identical to the one above must pick Up(2)");
    assert_eq!(&out[1..], &[0, 0, 0, 0, 0, 0]);
}

#[test]
fn first_row_up_equals_none_and_ties_to_none() {
    let row: Vec<u8> = vec![100, 50, 25];
    let mut out = Vec::new();
    push_best_filter(&mut out, &row, None);
    assert_eq!(out[0], 0, "an all-tie row must resolve to None(0)");
    assert_eq!(&out[1..], &row[..]);
}

/// Length of the first IDAT chunk's data.
fn idat_len(png: &[u8]) -> usize {
    let mut i = 8;
    loop {
        let len = u32::from_be_bytes(png[i..i + 4].try_into().unwrap()) as usize;
        let tag = &png[i + 4..i + 8];
        if tag == b"IDAT" {
            return len;
        }
        i += 12 + len;
    }
}

#[test]
fn adaptive_filtering_never_regresses_vs_none() {
    for seed in 0u32..6 {
        let mut img = Image::new(24, 24, [200, 210, 220]);
        for y in 0..24 {
            for x in 0..24 {
                let v = ((x * 7 + y * 13 + seed as usize * 29) % 256) as u8;
                img.set(x, y, [v, v.wrapping_add(40), 220u8.wrapping_sub(v)]);
            }
        }
        let none = zlib_compress(&img.filtered_scanlines(false));
        let produced_len = idat_len(&img.encode_png());
        assert!(
            produced_len <= none.len(),
            "seed {seed}: adaptive IDAT {produced_len} must be <= none-only IDAT {}",
            none.len()
        );
    }
}

#[test]
fn repeated_rows_strictly_smaller_with_filter() {
    let mut img = Image::new(32, 64, [0, 0, 0]);
    for y in 0..64 {
        for x in 0..32 {
            let v = (x * 8) as u8;
            img.set(x, y, [v, 255u8.wrapping_sub(v), v / 2]);
        }
    }
    let none = zlib_compress(&img.filtered_scanlines(false)).len();
    let adaptive = zlib_compress(&img.filtered_scanlines(true)).len();
    assert!(
        adaptive < none,
        "repeated rows must compress smaller via Up filter: adaptive={adaptive} none={none}"
    );
}

#[test]
fn downsample_averages_blocks() {
    let mut img = Image::new(2, 2, [0, 0, 0]);
    img.set(0, 0, [100, 0, 0]);
    img.set(1, 0, [0, 100, 0]);
    img.set(0, 1, [0, 0, 100]);
    img.set(1, 1, [40, 40, 40]);
    let ds = img.downsample(2);
    assert_eq!((ds.width, ds.height), (1, 1));
    assert_eq!(&ds.pixels[0..3], &[35, 35, 35]);
}

#[test]
fn downsample_factor_one_is_identity() {
    let mut img = Image::new(3, 2, [10, 20, 30]);
    img.set(1, 1, [200, 100, 50]);
    let ds = img.downsample(1);
    assert_eq!(ds.pixels, img.pixels);
    assert_eq!((ds.width, ds.height), (3, 2));
}

#[test]
fn png_ihdr_dimensions() {
    let img = Image::new(16, 12, [0, 0, 0]);
    let bytes = img.encode_png();
    let w = u32::from_be_bytes(bytes[16..20].try_into().unwrap());
    let h = u32::from_be_bytes(bytes[20..24].try_into().unwrap());
    assert_eq!((w, h), (16, 12));
}

#[test]
fn image_crc32_matches_known_vectors() {
    assert_eq!(crc32(b"", b"123456789"), 0xCBF4_3926);
    assert_eq!(crc32(b"1234", b"56789"), 0xCBF4_3926);
    assert_eq!(crc32(b"123456789", b""), 0xCBF4_3926);
    assert_eq!(crc32(b"", b""), 0x0000_0000);
}

#[test]
fn adler32_matches_known_vectors() {
    let (s1, s2) = adler32(b"123456789");
    assert_eq!((s1, s2), (478, 2334), "adler32 s1/s2 components");
    assert_eq!((s2 << 16) | s1, 0x091E_01DE, "adler32 combined value");
    let (e1, e2) = adler32(b"");
    assert_eq!((e1, e2), (1, 0));
    assert_eq!((e2 << 16) | e1, 0x0000_0001);
}

#[test]
fn downsample_factor_four_averages_sixteen_pixels() {
    let mut img = Image::new(4, 4, [0, 0, 0]);
    for i in 0..16 {
        let x = i % 4;
        let y = i / 4;
        img.set(x, y, [(i * 16) as u8, 128, 64]);
    }
    let ds = img.downsample(4);
    assert_eq!((ds.width, ds.height), (1, 1), "4×4 → 1×1 output");
    assert_eq!(ds.pixels[0], 120, "R avg of 0..240 step 16 = 120, got {}", ds.pixels[0]);
    assert_eq!(ds.pixels[1], 128, "G must be constant 128, got {}", ds.pixels[1]);
    assert_eq!(ds.pixels[2], 64, "B must be constant 64, got {}", ds.pixels[2]);
}

// ── Further cases ────────────────────────────────────────────────────────────

#[test]
fn new_fills_every_pixel_with_background() {
    let img = Image::new(3, 2, [1, 2, 3]);
    assert_eq!(img.pixels, vec![1, 2, 3, 1, 2, 3, 1, 2, 3, 1, 2, 3, 1, 2, 3, 1, 2, 3]);
}

#[test]
fn set_writes_only_the_addressed_pixel() {
    let mut img = Image::new(2, 2, [0, 0, 0]);
    img.set(1, 1, [7, 8, 9]);
    assert_eq!(img.pixels, vec![0, 0, 0, 0, 0, 0, 0, 0, 0, 7, 8, 9]);
}

#[test]
fn downsample_rounds_down_and_drops_remainder() {
    // 3×3 with factor 2 keeps one block; the mean 1/4 rounds down to 0.
    let mut img = Image::new(3, 3, [0, 0, 0]);
    img.set(0, 0, [1, 3, 255]);
    img.set(2, 2, [255, 255, 255]);
    let ds = img.downsample(2);
    assert_eq!((ds.width, ds.height), (1, 1));
    assert_eq!(ds.pixels, vec![0, 0, 63]);
}

#[test]
fn unfiltered_scanlines_prefix_each_row_with_zero() {
    let mut img = Image::new(1, 2, [5, 6, 7]);
    img.set(0, 1, [8, 9, 10]);
    assert_eq!(img.filtered_scanlines(false), vec![0, 5, 6, 7, 0, 8, 9, 10]);
    // Adaptive: row 0 ties (None), row 1 is Up with differences 3,3,3 < 27.
    assert_eq!(img.filtered_scanlines(true), vec![0, 5, 6, 7, 2, 3, 3, 3]);
}

#[test]
fn png_chunks_are_ihdr_idat_iend_with_valid_crcs() {
    let img = Image::new(2, 1, [9, 9, 9]);
    let png = img.encode_png();
    let ihdr_data = &png[16..29];
    assert_eq!(ihdr_data, &[0, 0, 0, 2, 0, 0, 0, 1, 8, 2, 0, 0, 0]);
    let ihdr_crc = u32::from_be_bytes(png[29..33].try_into().unwrap());
    assert_eq!(ihdr_crc, crc32(b"IHDR", ihdr_data));
    // IEND is the last 12 bytes: length 0, tag, CRC of "IEND" (0xAE426082).
    assert_eq!(&png[png.len() - 12..], &[0, 0, 0, 0, 0x49, 0x45, 0x4E, 0x44, 0xAE, 0x42, 0x60, 0x82]);
}

#[test]
fn downsample_large_factor_on_dark_image() {
    // A factor whose 255-per-channel worst case would not fit in 32 bits
    // still averages a dark block exactly.
    let img = Image::new(4200, 4200, [1, 2, 0]);
    let ds = img.downsample(4200);
    assert_eq!((ds.width, ds.height), (1, 1));
    assert_eq!(ds.pixels, vec![1, 2, 0]);
}

#[test]
fn downsample_large_factor_on_empty_image() {
    let img = Image::new(0, 0, [0, 0, 0]);
    let ds = img.downsample(1_000_000);
    assert_eq!((ds.width, ds.height), (0, 0));
    assert!(ds.pixels.is_empty());
    let small = Image::new(3, 2, [7, 7, 7]);
    let ds = small.downsample(usize::MAX);
    assert_eq!((ds.width, ds.height), (0, 0));
    assert!(ds.pixels.is_empty());
}
