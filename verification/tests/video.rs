//! The picture source.

use viroh::font;
use viroh::video::{can_draw, format_timecode, Frame, TimecodeSource};

fn pixel(f: &Frame, x: usize, y: usize) -> [u8; 3] {
    let i = (y * f.width + x) * 3;
    [f.rgb[i], f.rgb[i + 1], f.rgb[i + 2]]
}

const BAR: [u8; 3] = [40, 120, 200];
const BORDER: [u8; 3] = [80, 80, 80];
const FACE: [u8; 3] = [80, 255, 120];

#[test]
fn timecodes() {
    assert_eq!(format_timecode(999), "00:00:00.999");
    assert_eq!(format_timecode(1_000), "00:00:01.000");
    assert_eq!(format_timecode(59_999), "00:00:59.999");
    assert_eq!(format_timecode(60_000), "00:01:00.000");
    assert_eq!(format_timecode(3_599_999), "00:59:59.999");
    assert_eq!(format_timecode(3_600_000), "01:00:00.000");
    assert_eq!(format_timecode(359_999_999), "99:59:59.999");
    assert_eq!(format_timecode(360_000_000), "100:00:00.000");
    assert_eq!(format_timecode(u128::MAX), "94522879700260684295381835397713:23:31.455");
}

#[test]
fn timecodes_differ() {
    let mut last = String::new();
    for ms in 0..200_000u128 {
        let t = format_timecode(ms * 37);
        assert_eq!(t.len(), 12);
        assert!(t > last);
        last = t;
    }
}

#[test]
fn frames_have_their_size() {
    for (w, h) in [(3, 37), (4, 38), (160, 120), (641, 479), (640, 480)] {
        let f = TimecodeSource::new(w, h, 30).render(1234);
        assert_eq!((f.width, f.height, f.rgb.len()), (w, h, w * h * 3));
    }
}

#[test]
fn sizes_that_can_be_drawn() {
    assert!(can_draw(3, 37));
    assert!(!can_draw(2, 37));
    assert!(!can_draw(3, 36));
    assert!(can_draw(640, 480));
    assert!(!can_draw(usize::MAX, 37));
    assert!(!can_draw(3, usize::MAX));
    assert!(!can_draw(usize::MAX, usize::MAX));
}

#[test]
fn border_surrounds_the_frame() {
    let f = TimecodeSource::new(640, 480, 30).render(0);
    for x in 0..640 {
        for y in [0, 1, 2, 477, 478, 479] {
            assert_eq!(pixel(&f, x, y), BORDER);
        }
    }
    for y in 0..480 {
        for x in [0, 1, 2, 637, 638, 639] {
            assert_eq!(pixel(&f, x, y), BORDER);
        }
    }
}

#[test]
fn background_is_a_gradient() {
    let f = TimecodeSource::new(640, 480, 30).render(0);
    for y in [120usize, 150, 330, 350, 370] {
        let v = 16 + (y * 24 / 480) as u8;
        assert_eq!(pixel(&f, 630, y), [v / 3, v / 3, v]);
    }
}

/// The leftmost column of the bar in a row of the top strip that only bar, border
/// and background share.
fn bar_left(f: &Frame) -> Option<usize> {
    (3..f.width - 3).find(|&x| pixel(f, x, 10) == BAR)
}

#[test]
fn bar_stands_where_doubles_put_it() {
    for (w, fps) in [(640usize, 30u32), (641, 25), (333, 60), (1000, 1), (777, 0), (320, 24)] {
        let period = fps.max(1) as u128 * 33;
        for k in 0..60u128 {
            let ms = k * 7919 % (3 * period) + 5 * period;
            let f = TimecodeSource::new(w, 480, fps).render(ms);
            let phase = (ms % period) as f64 / period as f64;
            let bar_x = (phase * w as f64) as usize;
            let left = bar_x.saturating_sub(4);
            let expected = (left.max(3)..(left + 9).min(w - 3)).next();
            assert_eq!(bar_left(&f), expected, "{w} {fps} {ms}");
            for x in 3..w - 3 {
                assert_eq!(pixel(&f, x, 10) == BAR, left <= x && x < left + 9);
            }
        }
    }
}

#[test]
fn bar_moves_right_and_returns() {
    let mut last = 0;
    for ms in 0..990 {
        let f = TimecodeSource::new(640, 480, 30).render(ms);
        if let Some(x) = bar_left(&f) {
            assert!(last <= x);
            last = x;
        }
        if ms % 99 == 0 {
            let g = TimecodeSource::new(640, 480, 30).render(ms + 990);
            assert_eq!(bar_left(&f), bar_left(&g));
        }
    }
}

#[test]
fn bar_keeps_to_its_strips() {
    for ms in (0..990).step_by(45) {
        let f = TimecodeSource::new(640, 480, 30).render(ms);
        for y in 105..375 {
            for x in 0..640 {
                assert_ne!(pixel(&f, x, y), BAR);
            }
        }
    }
}

#[test]
fn timecode_is_drawn_in_the_font() {
    // 12 characters in 544 pixels: 7 wide, 18 tall, thickened by 3
    let f = TimecodeSource::new(640, 480, 30).render(3_661_123);
    let (left, top) = ((640 - 12 * 6 * 7) / 2, (480 - 7 * 18) / 2);
    for (k, ch) in "01:01:01.123".chars().enumerate() {
        let rows = font::glyph(ch).unwrap();
        for row in 0..7 {
            for col in 0..5 {
                let (x, y) = (left + (k * 6 + col) * 7, top + row * 18);
                let lit = rows[row] & (1 << (4 - col)) != 0;
                if lit {
                    for (dx, dy) in [(0, 0), (9, 0), (0, 20), (9, 20)] {
                        assert_eq!(pixel(&f, x + dx, y + dy), FACE);
                    }
                } else {
                    // the middle of a font pixel is out of reach of its neighbors
                    assert_ne!(pixel(&f, x + 5, y + 10), FACE);
                }
            }
        }
    }
}

#[test]
fn timecode_stands_on_a_black_panel() {
    for ms in [0, 500, 3_661_123, 359_999_999] {
        let f = TimecodeSource::new(640, 480, 30).render(ms);
        assert_eq!(pixel(&f, 108, 240), [0, 0, 0]);
        // 12 characters of 42 columns, 7 rows of 18 and the thickening
        let (left, top, right, bottom) = (68, 177, 68 + 504, 177 + 126 + 3);
        for y in top..bottom {
            for x in left..right {
                assert!(pixel(&f, x, y) == FACE || pixel(&f, x, y) == [0, 0, 0], "{x} {y}");
            }
        }
        for y in 0..480 {
            for x in 0..640 {
                let on_panel = left <= x && x < right && top <= y && y < bottom;
                assert!(on_panel || pixel(&f, x, y) != FACE);
            }
        }
        for (x, y) in [(67, 240), (572 + 3, 240), (100, 176), (300, 306 + 6)] {
            assert_ne!(pixel(&f, x, y), [0, 0, 0], "{x} {y}");
        }
    }
}

#[test]
fn longer_texts_start_like_shorter_ones() {
    let mut src = TimecodeSource::new(640, 480, 30);
    let frames: Vec<Frame> = (0..11).map(|_| src.render(0)).collect();
    // "FRAME 1" and "FRAME 10": the same up to the end of the shorter text
    let end = 16 + 7 * 18;
    for y in 443..465 {
        for x in 0..end {
            assert_eq!(pixel(&frames[1], x, y), pixel(&frames[10], x, y));
        }
    }
    assert!((443..465).any(|y| (end..end + 18).any(|x| pixel(&frames[1], x, y) != pixel(&frames[10], x, y))));
}

#[test]
fn captions_are_drawn() {
    let mut src = TimecodeSource::new(640, 480, 30);
    let f = src.render(0);
    // V of the label, F of the counter
    assert_eq!(pixel(&f, 16, 16), [200, 200, 80]);
    assert_eq!(pixel(&f, 16, 480 - 16 - 21), [180, 180, 180]);
    // the counter is all that changes when the time does not
    let g = src.render(0);
    let changed: Vec<usize> = (0..480).filter(|&y| (0..640).any(|x| pixel(&f, x, y) != pixel(&g, x, y))).collect();
    assert!(!changed.is_empty());
    assert!(changed.iter().all(|&y| 443 <= y && y < 465));
}

#[test]
fn font_has_what_the_captions_need() {
    for c in "0123456789:.ABCDEFGHIJKLMNOPQRSTUVWXYZ ".chars() {
        assert!(font::glyph(c).is_some(), "{c}");
    }
    assert!(font::glyph('é').is_none());
    assert_eq!((font::GLYPH_W, font::GLYPH_H), (5, 7));
}

#[test]
fn timecode_fills_at_most_85_percent() {
    for w in [85usize, 100, 333, 640, 1001] {
        let f = TimecodeSource::new(w, 480, 30).render(45_296_789);
        let lit: Vec<usize> = (0..w).filter(|&x| (0..480).any(|y| pixel(&f, x, y) == FACE)).collect();
        let (first, last) = (lit[0], lit[lit.len() - 1]);
        assert!((last + 1 - first) * 100 <= w * 85 + 100, "{w}: {first}..{last}");
    }
}

#[test]
fn bar_stays_in_the_frame() {
    let f = TimecodeSource::new(640, 480, 30).render(989);
    let x = bar_left(&f).unwrap();
    assert!(x >= 640 - 9 && x < 640);
}
