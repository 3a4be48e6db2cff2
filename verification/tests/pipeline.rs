//! End-to-end checks for the codec and the framing.

use viroh::video;
use viroh::wire::Incoming;
use viroh::{read_frame, write_frame};

#[test]
fn codec_roundtrip_preserves_dimensions_and_content() {
    let mut src = video::TimecodeSource::new(640, 480, 30);
    let frame = src.render(3_661_123); // 01:01:01.123

    let jpeg = video::encode_jpeg(&frame, 80).expect("encode");
    assert!(jpeg.starts_with(&[0xFF, 0xD8]), "not a JPEG (missing SOI)");

    let decoded = video::decode_jpeg(&jpeg).expect("decode");
    assert_eq!((decoded.width, decoded.height), (640, 480));

    // The center of the frame holds the bright green timecode glyphs, so the
    // decoded image must not be uniformly black there.
    let mut bright = 0;
    for y in 200..280 {
        for x in 0..640 {
            let i = (y * 640 + x) * 3;
            if decoded.rgb[i + 1] > 100 {
                bright += 1;
            }
        }
    }
    assert!(bright > 200, "expected visible timecode pixels, got {bright}");
}

#[test]
fn timecode_formatting() {
    assert_eq!(video::format_timecode(0), "00:00:00.000");
    assert_eq!(video::format_timecode(3_661_123), "01:01:01.123");
    assert_eq!(video::format_timecode(86_399_999), "23:59:59.999");
}

#[test]
fn framing_roundtrip() {
    let mut a = Vec::new();
    let payload = vec![1u8, 2, 3, 4, 5, 6, 7];
    let p2 = payload.clone();
    write_frame(&mut a, &p2);
    write_frame(&mut a, &[]); // empty frame is valid
    let mut b = Incoming::new(a);
    assert_eq!(read_frame(&mut b).unwrap().unwrap(), payload);
    assert_eq!(read_frame(&mut b).unwrap().unwrap(), Vec::<u8>::new());
    assert!(read_frame(&mut b).unwrap().is_none(), "clean EOF");
}
