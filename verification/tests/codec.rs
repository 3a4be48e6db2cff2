//! The JPEG codec.

use jpeg_encoder::{ColorType, SamplingFactor};
use viroh::codec::{can_decode, decoded, encoded, CodecError};
use viroh::video::{decode_jpeg, encode_jpeg, Frame};

fn noise(width: usize, height: usize, seed: u32) -> Frame {
    let mut s = seed;
    let rgb = (0..width * height * 3)
        .map(|_| {
            s = s.wrapping_mul(1664525).wrapping_add(1013904223);
            (s >> 24) as u8
        })
        .collect();
    Frame { width, height, rgb }
}

fn roundtrip(f: &Frame, quality: u8) {
    let jpeg = encode_jpeg(f, quality).expect("encode");
    assert!(jpeg.starts_with(&[0xFF, 0xD8]));
    assert!(can_decode(&jpeg));
    let g = decode_jpeg(&jpeg).expect("decode");
    assert_eq!((g.width, g.height, g.rgb.len()), (f.width, f.height, f.width * f.height * 3));
}

#[test]
fn small_sizes_survive() {
    for w in 1..=34 {
        for h in 1..=34 {
            roundtrip(&noise(w, h, (w * 100 + h) as u32), 80);
            roundtrip(&noise(w, h, (w * 100 + h) as u32), 95);
        }
    }
}

#[test]
fn every_quality_survives() {
    for q in 0..=255 {
        roundtrip(&noise(37, 21, q as u32), q);
    }
}

#[test]
fn extreme_pictures_survive() {
    let pictures: [fn(usize, usize) -> bool; 6] = [
        |x, y| (x + y) % 2 == 0,
        |x, _| x % 2 == 0,
        |_, y| y % 2 == 0,
        |x, y| x % 8 < 4 && y % 8 < 4,
        |x, y| x * y % 3 == 0,
        |x, y| (x * 7 + y * 13 + x * y * 5) % 11 < 5,
    ];
    for picture in pictures {
        for (on, off) in [([255, 255, 255], [0, 0, 0]), ([255, 0, 0], [0, 0, 255]), ([0, 255, 0], [255, 0, 255])] {
            let mut rgb = Vec::new();
            for y in 0..32 {
                for x in 0..32 {
                    rgb.extend(if picture(x, y) { on } else { off });
                }
            }
            for q in 0..=101 {
                roundtrip(&Frame { width: 32, height: 32, rgb: rgb.clone() }, q);
            }
        }
    }
}

#[test]
fn long_sides_survive() {
    for q in [75, 90] {
        roundtrip(&noise(16384, 1, 1), q);
        roundtrip(&noise(1, 16384, 2), q);
        roundtrip(&noise(16384, 17, 3), q);
        roundtrip(&noise(19, 16384, 4), q);
        roundtrip(&noise(16383, 9, 5), q);
        roundtrip(&noise(1920, 1080, 6), q);
    }
}

#[test]
fn content_survives_roughly() {
    let f = Frame { width: 16, height: 16, rgb: [200u8, 40, 90].repeat(256) };
    let g = decode_jpeg(&encode_jpeg(&f, 90).unwrap()).unwrap();
    for p in g.rgb.chunks(3) {
        assert!((p[0] as i32 - 200).abs() < 8 && (p[1] as i32 - 40).abs() < 8 && (p[2] as i32 - 90).abs() < 8);
    }
}

#[test]
fn encoding_depends_on_the_frame_alone() {
    let f = noise(50, 40, 9);
    assert_eq!(encode_jpeg(&f, 70).unwrap(), encode_jpeg(&f, 70).unwrap());
    assert_ne!(encode_jpeg(&f, 70).unwrap(), encode_jpeg(&f, 60).unwrap());
    assert_ne!(encode_jpeg(&f, 70).unwrap(), encode_jpeg(&noise(50, 40, 10), 70).unwrap());
}

#[test]
fn sides_beyond_the_limit_are_not_decoded() {
    // among them sides whose bytes look like markers
    for side in [16385, 20000, 0xC0FF, 0xFFC0, 0xFFC2, 0xFFDA, 0xFFEE, 65535] {
        for quality in [20, 80, 95] {
            let jpeg = encode_jpeg(&noise(side, 1, 1), quality).unwrap();
            assert!(can_decode(&jpeg));
            assert!(matches!(decode_jpeg(&jpeg), Err(CodecError::Decode(_))));
            let jpeg = encode_jpeg(&noise(1, side, 1), quality).unwrap();
            assert!(can_decode(&jpeg));
            assert!(matches!(decode_jpeg(&jpeg), Err(CodecError::Decode(_))));
        }
    }
}

#[test]
fn sides_are_cut_to_sixteen_bits() {
    // 65537 columns are seen as one
    let f = Frame { width: 65537, height: 1, rgb: vec![9; 65537 * 3] };
    let g = decode_jpeg(&encode_jpeg(&f, 80).unwrap()).unwrap();
    assert_eq!((g.width, g.height), (1, 1));
    let f = Frame { width: 65536, height: 1, rgb: vec![9; 65536 * 3] };
    let e = encode_jpeg(&f, 80).unwrap_err();
    assert_eq!(e.message(), "jpeg encode failed: Image dimensions must be non zero: 0x1");
}

#[test]
fn frames_without_pixels_are_refused() {
    let f = Frame { width: 0, height: 5, rgb: vec![] };
    let e = encode_jpeg(&f, 80).unwrap_err();
    assert_eq!(e.message(), "jpeg encode failed: Image dimensions must be non zero: 0x5");
    let f = Frame { width: 2, height: 2, rgb: vec![0; 11] };
    let e = encode_jpeg(&f, 80).unwrap_err();
    assert_eq!(
        e.message(),
        "jpeg encode failed: Image data too small for dimensions and color_type: 11 need at least 12"
    );
}

#[test]
fn bytes_that_are_no_image_are_refused() {
    for bytes in [&[][..], &[1, 2, 3][..], &[0xFF, 0xD8][..], &[0xFF, 0xD8, 0xFF, 0xD9][..]] {
        assert!(can_decode(bytes));
        let e = decode_jpeg(bytes).err().unwrap();
        assert!(e.message().starts_with("jpeg decode failed: "));
    }
    let jpeg = encode_jpeg(&noise(20, 20, 3), 80).unwrap();
    assert!(decode_jpeg(&jpeg[1..]).is_err());
}

#[test]
fn images_without_pixels_are_refused() {
    let jpeg = encode_jpeg(&noise(20, 20, 3), 80).unwrap();
    let sof = jpeg.windows(2).position(|w| w == [0xFF, 0xC0]).unwrap();
    for side in [sof + 5, sof + 7] {
        let mut broken = jpeg.clone();
        assert!(can_decode(&broken));
        assert_eq!(&broken[side..side + 2], &[0, 20]);
        broken[side + 1] = 0;
        assert!(matches!(decode_jpeg(&broken), Err(CodecError::Decode(_))));
    }
}

/// An image of noise, as the encoder writes it with other settings.
fn image(w: u16, h: u16, color: ColorType, sampling: SamplingFactor, progressive: bool) -> Vec<u8> {
    let samples = match color {
        ColorType::Luma => 1,
        ColorType::Rgb => 3,
        _ => 4,
    };
    let bytes = w as usize * h as usize * samples;
    let pixels: Vec<u8> = noise(bytes, 1, 5).rgb[..bytes].to_vec();
    let mut jpeg = Vec::new();
    let mut encoder = jpeg_encoder::Encoder::new(&mut jpeg, 80);
    encoder.set_sampling_factor(sampling);
    encoder.set_progressive(progressive);
    encoder.encode(&pixels, w, h, color).unwrap();
    jpeg
}

#[test]
fn gray_images_become_rgb() {
    let mut jpeg = Vec::new();
    let encoder = jpeg_encoder::Encoder::new(&mut jpeg, 100);
    encoder.encode(&[0, 255, 128, 128, 255, 0, 7, 7, 0, 0, 99, 200], 4, 3, ColorType::Luma).unwrap();
    assert!(can_decode(&jpeg));
    let f = decode_jpeg(&jpeg).unwrap();
    assert_eq!((f.width, f.height, f.rgb.len()), (4, 3, 36));
    assert!(f.rgb.chunks(3).all(|p| p[0] == p[1] && p[1] == p[2]));
    assert!(f.rgb[0] < 40 && f.rgb[3] > 215 && f.rgb[6].abs_diff(128) < 40);

    let f = decoded(Ok((vec![1, 2, 3, 4], Some((2, 2))))).ok().unwrap();
    assert_eq!((f.width, f.height), (2, 2));
    assert_eq!(f.rgb, vec![1, 1, 1, 2, 2, 2, 3, 3, 3, 4, 4, 4]);
}

#[test]
fn usual_samplings_are_decoded() {
    let sizes = [(1, 1), (7, 9), (8, 8), (15, 31), (16, 16), (17, 3), (33, 65), (100, 50)];
    for sampling in [SamplingFactor::F_1_1, SamplingFactor::F_2_1, SamplingFactor::F_1_2, SamplingFactor::F_2_2] {
        for progressive in [false, true] {
            for (w, h) in sizes {
                for color in [ColorType::Rgb, ColorType::Luma] {
                    let jpeg = image(w, h, color, sampling, progressive);
                    assert!(can_decode(&jpeg));
                    let f = decode_jpeg(&jpeg).unwrap();
                    assert_eq!((f.width, f.height), (w as usize, h as usize));
                    assert_eq!(f.rgb.len(), w as usize * h as usize * 3);
                }
            }
        }
    }
}

#[test]
fn coarse_samplings_need_sixteen_columns() {
    for sampling in [SamplingFactor::F_4_1, SamplingFactor::F_4_2] {
        for (w, h) in [(1, 1), (8, 8), (15, 40)] {
            assert!(!can_decode(&image(w, h, ColorType::Rgb, sampling, true)));
        }
        for (w, h) in [(16, 1), (17, 8), (64, 40)] {
            let jpeg = image(w, h, ColorType::Rgb, sampling, true);
            assert!(can_decode(&jpeg));
            let f = decode_jpeg(&jpeg).unwrap();
            assert_eq!((f.width, f.height), (w as usize, h as usize));
        }
    }
    for sampling in [SamplingFactor::F_1_4, SamplingFactor::F_2_4] {
        for (w, h) in [(1, 1), (8, 40), (16, 1), (65, 70)] {
            let jpeg = image(w, h, ColorType::Rgb, sampling, true);
            assert!(can_decode(&jpeg));
            let f = decode_jpeg(&jpeg).unwrap();
            assert_eq!((f.width, f.height), (w as usize, h as usize));
        }
    }
    // a component that is neither like the first nor plain
    let mut jpeg = image(64, 40, ColorType::Rgb, SamplingFactor::F_4_1, true);
    let sof = jpeg.windows(2).position(|p| p == [0xFF, 0xC2]).unwrap();
    jpeg[sof + 14] = 0x12;
    assert!(!can_decode(&jpeg));
}

#[test]
fn separate_scans_are_decoded() {
    for (w, h) in [(1, 1), (8, 8), (20, 33), (64, 16)] {
        let mut jpeg = Vec::new();
        let mut encoder = jpeg_encoder::Encoder::new(&mut jpeg, 80);
        encoder.set_sampling_factor(SamplingFactor::F_1_1);
        encoder.set_optimized_huffman_tables(true);
        encoder.encode(&noise(w, h, 3).rgb, w as u16, h as u16, ColorType::Rgb).unwrap();
        let scans: Vec<usize> = (0..jpeg.len() - 1).filter(|&i| jpeg[i..i + 2] == [0xFF, 0xDA]).collect();
        assert_eq!(scans.len(), 3);
        assert!(can_decode(&jpeg));
        let f = decode_jpeg(&jpeg).unwrap();
        assert_eq!((f.width, f.height), (w, h));
        // a table that is not there, and a component in two scans
        let mut missing = jpeg.clone();
        missing[scans[1] + 6] = 0x33;
        assert!(!can_decode(&missing));
        let mut twice = jpeg.clone();
        twice[scans[1] + 5] = twice[scans[0] + 5];
        assert!(!can_decode(&twice));
    }
}

#[test]
fn restarts_are_decoded() {
    for interval in [1, 2, 3, 7, 1000] {
        for progressive in [false, true] {
            for color in [ColorType::Rgb, ColorType::Luma] {
                let samples = if matches!(color, ColorType::Luma) { 1 } else { 3 };
                let mut jpeg = Vec::new();
                let mut encoder = jpeg_encoder::Encoder::new(&mut jpeg, 80);
                encoder.set_restart_interval(interval);
                encoder.set_progressive(progressive);
                encoder.encode(&noise(50, 30, 4).rgb[..50 * 30 * samples], 50, 30, color).unwrap();
                if can_decode(&jpeg) {
                    decode_jpeg(&jpeg).ok();
                }
                if !progressive {
                    assert!(can_decode(&jpeg));
                    assert_eq!(decode_jpeg(&jpeg).unwrap().width, 50);
                    // the first restart is missing
                    if let Some(at) = jpeg.windows(2).position(|p| p == [0xFF, 0xD0]) {
                        jpeg[at + 1] = 0;
                        assert!(!can_decode(&jpeg));
                    }
                }
            }
        }
    }
}

/// A gray image of two blocks: each differs by one in its first coefficient, and
/// the quantizers have two bytes.
fn two_blocks(quantizer: u16, data: &[u8]) -> Vec<u8> {
    let mut jpeg = vec![0xFF, 0xD8, 0xFF, 0xDB, 0, 131, 0x10];
    for _ in 0..64 {
        jpeg.extend(quantizer.to_be_bytes());
    }
    jpeg.extend([0xFF, 0xC0, 0, 11, 8, 0, 8, 0, 16, 1, 1, 0x11, 0]);
    for (kind, symbol) in [(0x00, 1), (0x10, 0)] {
        jpeg.extend([0xFF, 0xC4, 0, 20, kind, 1, 0, 0, 0, 0, 0, 0, 0, 0, 0, 0, 0, 0, 0, 0, 0, symbol]);
    }
    jpeg.extend([0xFF, 0xDA, 0, 8, 1, 1, 0, 0, 63, 0]);
    jpeg.extend(data);
    jpeg.extend([0xFF, 0xD9]);
    jpeg
}

#[test]
fn data_are_complete_and_small() {
    // codes and bits: 0 1 0, 0 1 0
    let good = two_blocks(100, &[0b0100_1011]);
    assert!(can_decode(&good));
    let f = decode_jpeg(&good).unwrap();
    assert_eq!((f.width, f.height), (16, 8));
    // 128 and an eighth of 100, 128 and an eighth of 200
    assert_eq!((f.rgb[0], f.rgb[3 * 8]), (141, 153));
    // the quantizers make the coefficients large: 2 * 12500 is the limit
    assert!(can_decode(&two_blocks(12500, &[0b0100_1011])));
    assert!(decode_jpeg(&two_blocks(12500, &[0b0100_1011])).is_ok());
    assert!(!can_decode(&two_blocks(12501, &[0b0100_1011])));
    assert!(!can_decode(&two_blocks(65535, &[0b0100_1011])));
    // an unknown code, no data, a marker before the data
    assert!(!can_decode(&two_blocks(100, &[0b1100_1011])));
    assert!(!can_decode(&two_blocks(100, &[])));
    assert!(!can_decode(&two_blocks(100, &[0xFF, 0xD0, 0b0100_1011])));
    // data after the image do no harm
    assert!(can_decode(&two_blocks(100, &[0b0100_1011, 1, 2, 3])));
}

#[test]
fn thumbnails_are_no_obstacle() {
    for thumbnail in [
        image(40, 30, ColorType::Rgb, SamplingFactor::F_2_2, false),
        image(8, 8, ColorType::Rgb, SamplingFactor::F_4_1, true),
    ] {
        for progressive in [false, true] {
            let mut jpeg = image(100, 60, ColorType::Rgb, SamplingFactor::F_2_2, progressive);
            let mut segment = vec![0xFF, 0xE1];
            segment.extend(((thumbnail.len() + 8) as u16).to_be_bytes());
            segment.extend(b"Exif\0\0");
            segment.extend(&thumbnail);
            jpeg.splice(2..2, segment);
            assert!(can_decode(&jpeg));
            let f = decode_jpeg(&jpeg).unwrap();
            assert_eq!((f.width, f.height), (100, 60));
        }
    }
}

#[test]
fn four_components_are_decoded_in_one_baseline_scan() {
    for (color, sampling) in [
        (ColorType::Cmyk, SamplingFactor::F_1_1),
        (ColorType::CmykAsYcck, SamplingFactor::F_1_1),
        (ColorType::CmykAsYcck, SamplingFactor::F_2_2),
    ] {
        let jpeg = image(19, 33, color, sampling, false);
        assert!(can_decode(&jpeg));
        let f = decode_jpeg(&jpeg).unwrap();
        assert_eq!((f.width, f.height, f.rgb.len()), (19, 33, 19 * 33 * 3));
    }
    // the last component is sampled more finely than the first
    assert!(!can_decode(&image(19, 33, ColorType::Cmyk, SamplingFactor::F_2_2, false)));
    let plain = image(19, 33, ColorType::Cmyk, SamplingFactor::F_1_1, true);
    let mut adobe = plain.clone();
    if !plain.windows(2).any(|p| p == [0xFF, 0xEE]) {
        let at = adobe.len() - 2;
        adobe.splice(at..at, [0xFF, 0xEE, 0, 2]);
    }
    let sof = adobe.windows(2).position(|p| p == [0xFF, 0xC2]).unwrap();
    let segment = adobe.windows(2).rposition(|p| p == [0xFF, 0xEE]).unwrap();
    assert_eq!(can_decode(&adobe), segment < sof);
}

#[test]
fn adobe_segments_of_gray_images_come_first() {
    let gray = image(9, 9, ColorType::Luma, SamplingFactor::F_1_1, false);
    let sof = gray.windows(2).position(|p| p == [0xFF, 0xC0]).unwrap();
    let sos = gray.windows(2).position(|p| p == [0xFF, 0xDA]).unwrap();
    let adobe = [0xFF, 0xEE, 0, 14, b'A', b'd', b'o', b'b', b'e', 0, 100, 0, 0, 0, 0, 2];
    let mut before = gray.clone();
    before.splice(sof..sof, adobe);
    assert!(can_decode(&before));
    assert!(decode_jpeg(&before).is_ok());
    let mut after = gray.clone();
    after.splice(sos..sos, adobe);
    assert!(!can_decode(&after));
    // of two components neither may hold
    let mut two = gray.clone();
    two[sof + 3] = 14;
    two[sof + 9] = 2;
    two.splice(sof + 13..sof + 13, [2, 0x11, 0]);
    assert!(can_decode(&two));
    assert!(matches!(decode_jpeg(&two), Err(CodecError::Decode(_))));
    two.splice(2..2, adobe);
    assert!(!can_decode(&two));
}

#[test]
fn progressive_images_may_end_early() {
    let mut restarted = image(20, 20, ColorType::Luma, SamplingFactor::F_1_1, true);
    assert!(restarted.ends_with(&[0xFF, 0xD9]));
    let at = restarted.len() - 2;
    restarted.splice(at..at, [0xFF, 0xD0]);
    assert!(can_decode(&restarted));
    assert!(decode_jpeg(&restarted).is_ok());
    restarted.truncate(at + 2);
    assert!(can_decode(&restarted));
    assert!(decode_jpeg(&restarted).is_err());
    restarted.truncate(at);
    assert!(can_decode(&restarted));
    assert!(decode_jpeg(&restarted).is_err());
    restarted.truncate(at - 20);
    assert!(!can_decode(&restarted));
}

#[test]
fn headers_that_are_refused_are_no_obstacle() {
    let jpeg = image(8, 8, ColorType::Rgb, SamplingFactor::F_4_1, true);
    assert!(!can_decode(&jpeg));
    let sof = jpeg.windows(2).position(|p| p == [0xFF, 0xC2]).unwrap();
    // length, precision, height, width, number of components
    for (at, value) in [(3, 18), (4, 12), (6, 0), (8, 0), (5, 0x41), (7, 0x41), (9, 0), (9, 5)] {
        let mut refused = jpeg.clone();
        refused[sof + at] = value;
        assert!(can_decode(&refused));
        assert!(matches!(decode_jpeg(&refused), Err(CodecError::Decode(_))));
    }
}

#[test]
fn results_of_the_codec_become_frames_and_errors() {
    assert_eq!(encoded(Ok(vec![1, 2])).unwrap(), vec![1, 2]);
    assert_eq!(encoded(Err("no".to_string())).unwrap_err().message(), "jpeg encode failed: no");
    let f = decoded(Ok((vec![1, 2, 3], Some((1, 1))))).ok().unwrap();
    assert_eq!((f.width, f.height, f.rgb), (1, 1, vec![1, 2, 3]));
    assert_eq!(decoded(Ok((vec![], None))).err().unwrap().message(), "jpeg decode produced no image info");
    assert_eq!(decoded(Err("no".to_string())).err().unwrap().message(), "jpeg decode failed: no");
}

/// A plain image with any sampling factors. There are more data than it needs,
/// except in the first scan of a progressive image, whose end the decoder would
/// miss.
fn layout(w: u16, h: u16, samplings: &[u8], progressive: bool) -> Vec<u8> {
    let n = samplings.len() as u8;
    let mut jpeg = vec![0xFF, 0xD8, 0xFF, 0xDB, 0, 67, 0];
    jpeg.extend([1; 64]);
    jpeg.extend([0xFF, if progressive { 0xC2 } else { 0xC0 }, 0, 8 + 3 * n, 8]);
    jpeg.extend(h.to_be_bytes());
    jpeg.extend(w.to_be_bytes());
    jpeg.push(n);
    for (k, &s) in samplings.iter().enumerate() {
        jpeg.extend([k as u8, s, 0]);
    }
    for kind in [0x00, 0x10] {
        jpeg.extend([0xFF, 0xC4, 0, 20, kind, 1, 0, 0, 0, 0, 0, 0, 0, 0, 0, 0, 0, 0, 0, 0, 0, 0]);
    }
    jpeg.extend([0xFF, 0xDA, 0, 6 + 2 * n, n]);
    for k in 0..n {
        jpeg.extend([k, 0]);
    }
    jpeg.extend([0, if progressive { 0 } else { 63 }, 0]);
    let data = vec![0; (w as usize / 8 + 9) * (h as usize / 8 + 9) * 4];
    let (across, down) = if n == 1 { (1, 1) } else { (samplings[0] as usize / 16, samplings[0] as usize % 16) };
    let units = (w as usize).div_ceil(8 * across) * (h as usize).div_ceil(8 * down);
    let blocks: usize = samplings.iter().map(|&s| if n == 1 { 1 } else { (s / 16 * (s % 16)) as usize }).sum();
    if !progressive {
        jpeg.extend(&data);
    } else {
        jpeg.extend(vec![0; (units * blocks).div_ceil(8)]);
        for k in 0..n {
            jpeg.extend([0xFF, 0xDA, 0, 8, 1, k, 0, 1, 63, 0]);
            jpeg.extend(&data);
        }
    }
    jpeg.extend([0xFF, 0xD9]);
    jpeg
}

#[test]
fn layouts_are_decoded_or_left_out() {
    let factors = [0x11u8, 0x12, 0x14, 0x21, 0x22, 0x24, 0x41, 0x42, 0x44, 0x18, 0x81, 0x82];
    let mut decoded = 0;
    for progressive in [false, true] {
        for (w, h) in [(1, 1), (15, 40), (16, 16), (17, 33)] {
            for a in factors {
                assert!(can_decode(&layout(w, h, &[a], progressive)));
                assert!(decode_jpeg(&layout(w, h, &[a], progressive)).is_ok());
                for b in factors {
                    for c in factors {
                        for samplings in [vec![a, b, c], vec![a, b, b, c]] {
                            let jpeg = layout(w, h, &samplings, progressive);
                            if can_decode(&jpeg) {
                                if let Ok(f) = decode_jpeg(&jpeg) {
                                    assert_eq!((f.width, f.height), (w as usize, h as usize));
                                    decoded += 1;
                                }
                            }
                        }
                    }
                }
            }
        }
    }
    assert!(decoded > 700, "{decoded}");
    for samplings in [[0x22, 0x12, 0x12], [0x22, 0x21, 0x21], [0x22, 0x11, 0x12], [0x11, 0x11, 0x11], [0x41, 0x11, 0x11]] {
        assert!(can_decode(&layout(17, 33, &samplings, false)));
    }
    assert!(!can_decode(&layout(17, 33, &[0x11, 0x22, 0x22], false)));
    assert!(!can_decode(&layout(15, 33, &[0x41, 0x11, 0x11], false)));
}

#[test]
fn layouts_of_all_small_sizes_are_decoded() {
    for samplings in [
        [0x11, 0x11, 0x11],
        [0x21, 0x11, 0x11],
        [0x12, 0x11, 0x11],
        [0x22, 0x11, 0x11],
        [0x22, 0x12, 0x12],
        [0x22, 0x21, 0x21],
        [0x22, 0x12, 0x21],
        [0x22, 0x22, 0x11],
        [0x14, 0x11, 0x11],
        [0x41, 0x11, 0x11],
    ] {
        for w in 1..50 {
            for h in (1..50).step_by(3) {
                for progressive in [false, true] {
                    let jpeg = layout(w, h, &samplings, progressive);
                    assert_eq!(can_decode(&jpeg), samplings[0] < 0x40 || w >= 16);
                    if can_decode(&jpeg) {
                        if let Ok(f) = decode_jpeg(&jpeg) {
                            assert_eq!((f.width, f.height), (w as usize, h as usize));
                        }
                    }
                }
            }
        }
    }
}

#[test]
fn damaged_images_are_decoded_or_refused() {
    let mut bases = vec![two_blocks(100, &[0b0100_1011])];
    for (w, h) in [(5, 7), (20, 33)] {
        for progressive in [false, true] {
            for sampling in [
                SamplingFactor::F_1_1,
                SamplingFactor::F_2_1,
                SamplingFactor::F_1_2,
                SamplingFactor::F_2_2,
                SamplingFactor::F_1_4,
            ] {
                bases.push(image(w, h, ColorType::Rgb, sampling, progressive));
            }
            bases.push(image(w, h, ColorType::Luma, SamplingFactor::F_1_1, progressive));
            bases.push(image(w, h, ColorType::CmykAsYcck, SamplingFactor::F_2_2, progressive));
        }
    }
    let mut s = 12345u64;
    let mut next = move |n: usize| {
        s = s.wrapping_mul(6364136223846793005).wrapping_add(1442695040888963407);
        ((s >> 33) as usize) % n
    };
    let (mut decoded, mut refused, mut left_out) = (0, 0, 0);
    for round in 0..12_000 {
        let mut jpeg = bases[round % bases.len()].clone();
        let sof = jpeg.windows(2).position(|p| p == [0xFF, 0xC0] || p == [0xFF, 0xC2]).unwrap();
        for _ in 0..1 + next(3) {
            let at = if next(2) == 0 { (sof + next(22)).min(jpeg.len() - 1) } else { next(jpeg.len()) };
            jpeg[at] = match next(3) {
                0 => [0, 0xFF, 0xDA, 0xD9, 0xC0, 0xC2, 0x11, 0x22, 0x41, 1, 2, 3, 4][next(13)],
                1 => 1 << next(8),
                _ => next(256) as u8,
            };
        }
        if next(4) == 0 {
            jpeg.truncate(next(jpeg.len()));
        }
        if next(4) == 0 {
            let at = next(jpeg.len() + 1);
            jpeg.splice(at..at, [0xFF, [0xD0, 0xD9, 0xDA, 0xEE, 0xC4, 0xDB, 0xE0][next(7)]]);
        }
        // sides that would take long
        if jpeg.len() > sof + 8 && jpeg[sof + 5] as usize * jpeg[sof + 7] as usize > 8 {
            continue;
        }
        if !can_decode(&jpeg) {
            left_out += 1;
        } else if let Ok(f) = decode_jpeg(&jpeg) {
            assert_eq!(f.rgb.len(), f.width * f.height * 3);
            decoded += 1;
        } else {
            refused += 1;
        }
    }
    assert!(decoded > 1000 && refused > 1000 && left_out > 1000, "{decoded} {refused} {left_out}");
}
