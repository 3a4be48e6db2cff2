//! The receiver's decisions, and the preview's.

use viroh::preview::Preview;
use viroh::receiver::{greeting, quits, shown, ColorArg, Key, Viewer};
use viroh::render::{fit_grid, to_ascii, to_half_blocks, ColorMode};
use viroh::sender::{stream_meta, FrameCfg};
use viroh::video::{encode_jpeg, TimecodeSource};

fn text(s: &str) -> Option<String> {
    Some(s.to_string())
}

#[test]
fn color_modes() {
    for env in [None, text("truecolor"), text("24bit"), text("yes")] {
        assert_eq!(ColorArg::Truecolor.resolve(&env), ColorMode::Truecolor);
        assert_eq!(ColorArg::C256.resolve(&env), ColorMode::Ansi256);
        assert_eq!(ColorArg::Mono.resolve(&env), ColorMode::Mono);
    }
    assert_eq!(ColorArg::Auto.resolve(&text("truecolor")), ColorMode::Truecolor);
    assert_eq!(ColorArg::Auto.resolve(&text("24bit")), ColorMode::Truecolor);
    assert_eq!(ColorArg::Auto.resolve(&text("Truecolor")), ColorMode::Ansi256);
    assert_eq!(ColorArg::Auto.resolve(&text("")), ColorMode::Ansi256);
    assert_eq!(ColorArg::Auto.resolve(&None), ColorMode::Ansi256);
}

#[test]
fn keys_that_quit() {
    assert!(quits(Key::Char('q'), false));
    assert!(quits(Key::Char('q'), true));
    assert!(quits(Key::Esc, false));
    assert!(quits(Key::Char('c'), true));
    assert!(!quits(Key::Char('c'), false));
    assert!(!quits(Key::Char('Q'), false));
    assert!(!quits(Key::Other, true));
}

#[test]
fn greeting_names_the_stream() {
    let cfg = FrameCfg { fps: 30, quality: 90, width: 640, height: 480 };
    let meta = stream_meta(&"studio-A".to_string(), &"2026-06-30T00:00:00Z".to_string(), cfg);
    assert_eq!(greeting(&meta), "stream from \"studio-A\" (video only), started 2026-06-30T00:00:00Z");
}

#[test]
fn frames_are_counted_and_corrupt_ones_skipped() {
    let mut v = Viewer::new();
    let jpeg = encode_jpeg(&TimecodeSource::new(64, 48, 30).render(0), 80).unwrap();
    let f = v.receive(&jpeg).unwrap();
    assert_eq!((f.width, f.height), (64, 48));
    assert!(v.receive(&[1, 2, 3]).is_none());
    assert_eq!((v.frames, v.bytes_total, v.window_frames), (2, jpeg.len() as u64 + 3, 2));
    assert_eq!(v.new_window(), 2);
    assert_eq!((v.frames, v.window_frames), (2, 0));
    assert!(shown(viroh::video::decode_jpeg(&[])).is_none());
}

#[test]
fn gray_frames_are_shown_and_unusual_ones_skipped() {
    let mut v = Viewer::new();
    let mut gray = Vec::new();
    let encoder = jpeg_encoder::Encoder::new(&mut gray, 90);
    encoder.encode(&[100; 64], 8, 8, jpeg_encoder::ColorType::Luma).unwrap();
    let f = v.receive(&gray).unwrap();
    assert_eq!((f.width, f.height, f.rgb.len()), (8, 8, 192));
    // four samples across in fewer than 16 columns
    let mut narrow = encode_jpeg(&viroh::video::Frame { width: 8, height: 8, rgb: vec![100; 192] }, 95).unwrap();
    let sof = narrow.windows(2).position(|p| p == [0xFF, 0xC0]).unwrap();
    narrow[sof + 11] = 0x41;
    assert!(v.receive(&narrow).is_none());
    assert_eq!((v.frames, v.bytes_total), (2, (gray.len() + narrow.len()) as u64));
}

#[test]
fn screen_is_cleared_when_the_size_changes() {
    let mut v = Viewer::new();
    let a = v.lay_out(640, 480, (80, 24));
    assert!(a.clear);
    assert_eq!((a.cols, a.rows, a.status_row), (61, 23, 23));
    assert_eq!((a.cols, a.rows), fit_grid(640, 480, 80, 23));
    assert!(!v.lay_out(640, 480, (80, 24)).clear);
    assert!(v.lay_out(640, 480, (81, 24)).clear);
    assert!(v.lay_out(640, 480, (81, 25)).clear);
    assert!(!v.lay_out(320, 480, (81, 25)).clear);
    let z = v.lay_out(640, 480, (80, 0));
    assert_eq!((z.cols, z.rows, z.status_row), (1, 1, 0));
}

#[test]
fn preview_arguments() {
    let p = Preview::new(None, None, None, &None);
    assert_eq!((p.cols, p.rows, p.frames, p.mode), (100, 32, 3, ColorMode::Truecolor));
    let p = Preview::new(Some(7), Some(8), Some(9), &text("256"));
    assert_eq!((p.cols, p.rows, p.frames, p.mode), (7, 8, 9, ColorMode::Ansi256));
    assert_eq!(Preview::new(None, None, None, &text("mono")).mode, ColorMode::Mono);
    assert_eq!(Preview::new(None, None, None, &text("color")).mode, ColorMode::Truecolor);
}

#[test]
fn preview_samples_a_second() {
    let p = Preview::new(None, None, Some(3), &None);
    assert_eq!([p.elapsed_ms(0), p.elapsed_ms(1), p.elapsed_ms(2)], [0, 333, 666]);
    let f = TimecodeSource::new(160, 120, 30).render(0);
    assert_eq!(p.art(&f, 20, 10), to_half_blocks(&f, 20, 10, ColorMode::Truecolor));
    let m = Preview::new(None, None, None, &text("mono"));
    assert_eq!(m.art(&f, 20, 10), to_ascii(&f, 20, 10, ColorMode::Mono));
}
