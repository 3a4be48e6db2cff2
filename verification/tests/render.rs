//! The renderer: grids, cells, colors and escapes.

use viroh::render::{can_render, fit_grid, to_ascii, to_half_blocks, ColorMode};
use viroh::video::{Frame, TimecodeSource};

fn frame(width: usize, height: usize, pixel: fn(usize, usize) -> [u8; 3]) -> Frame {
    let mut rgb = Vec::new();
    for y in 0..height {
        for x in 0..width {
            rgb.extend_from_slice(&pixel(x, y));
        }
    }
    Frame { width, height, rgb }
}

fn plain(c: [u8; 3]) -> Frame {
    Frame { width: 1, height: 1, rgb: c.to_vec() }
}

/// The grid computed with doubles.
fn grid_in_doubles(w: usize, h: usize, cols: usize, rows: usize) -> (usize, usize) {
    if w == 0 || h == 0 || cols == 0 || rows == 0 {
        return (1, 1);
    }
    let ratio = (w as f64 / h as f64) * 2.0;
    let fitted = (cols as f64 / ratio).floor() as usize;
    let (c, r) = if fitted <= rows { (cols, fitted) } else { ((rows as f64 * ratio).floor() as usize, rows) };
    (c.max(1), r.max(1))
}

/// A small generator of varied numbers.
fn next(state: &mut u64) -> u64 {
    *state = state.wrapping_mul(6364136223846793005).wrapping_add(1442695040888963407);
    let x = *state ^ (*state >> 29);
    x.wrapping_mul(0xbf58476d1ce4e5b9) ^ (x >> 32)
}

#[test]
fn grid_of_the_default_picture() {
    assert_eq!(fit_grid(640, 480, 80, 24), (64, 24));
    assert_eq!(fit_grid(640, 480, 100, 32), (85, 32));
    assert_eq!(fit_grid(640, 480, 80, 100), (80, 30));
    assert_eq!(fit_grid(320, 240, 120, 40), (106, 40));
}

#[test]
fn grid_of_nothing_is_one_cell() {
    assert_eq!(fit_grid(0, 480, 80, 24), (1, 1));
    assert_eq!(fit_grid(640, 0, 80, 24), (1, 1));
    assert_eq!(fit_grid(640, 480, 0, 24), (1, 1));
    assert_eq!(fit_grid(640, 480, 80, 0), (1, 1));
}

#[test]
fn grid_has_at_least_one_row_and_column() {
    assert_eq!(fit_grid(10_000, 1, 80, 24), (80, 1));
    assert_eq!(fit_grid(1, 10_000, 80, 24), (1, 24));
}

#[test]
fn grid_is_that_of_doubles() {
    let mut s = 7;
    for w in 1..60 {
        for h in 1..60 {
            for (c, r) in [(80, 24), (81, 25), (200, 50), (3, 99), (64, 24), (30, 11)] {
                assert_eq!(fit_grid(w, h, c, r), grid_in_doubles(w, h, c, r), "{w} {h} {c} {r}");
            }
        }
    }
    for bits in [8, 12, 16, 24, 32, 40, 48, 53, 56, 60, 64] {
        for _ in 0..400 {
            let mask = u64::MAX >> (64 - bits);
            let w = (next(&mut s) & mask) as usize;
            let h = (next(&mut s) & mask) as usize;
            let c = (next(&mut s) & mask) as usize;
            let r = (next(&mut s) & mask) as usize;
            assert_eq!(fit_grid(w, h, c, r), grid_in_doubles(w, h, c, r), "{w} {h} {c} {r}");
            assert_eq!(fit_grid(w & 0xffff, h & 0xffff, c, r), grid_in_doubles(w & 0xffff, h & 0xffff, c, r));
        }
    }
    let m = usize::MAX;
    for (w, h, c, r) in [(m, 1, m, m), (1, m, m, m), (m, m, m, m), (m, m, 1, m), (m - 1, 3, m, 5), (1, 1, m, m - 1)] {
        assert_eq!(fit_grid(w, h, c, r), grid_in_doubles(w, h, c, r), "{w} {h} {c} {r}");
    }
}

#[test]
fn grid_fits_every_terminal() {
    for cols in 1..120 {
        for rows in 1..50 {
            for (w, h) in [(640, 480), (1920, 1080), (480, 640), (17, 400), (400, 17)] {
                let (c, r) = fit_grid(w, h, cols, rows);
                assert!(1 <= c && c <= cols && 1 <= r && r <= rows);
                assert!(c == cols || r == rows);
            }
        }
    }
}

#[test]
fn grid_can_exceed_a_huge_terminal() {
    let cols = 6_718_000_166_398_352;
    assert_eq!(fit_grid(52, 685, cols, 44_248_366_480_604_535).0, cols + 1);
}

#[test]
fn grid_keeps_the_ratio_within_a_cell() {
    for cols in 1..120usize {
        for rows in 1..50usize {
            for (w, h) in [(640usize, 480usize), (1920, 1080), (480, 640), (17, 400), (400, 17)] {
                let (c, r) = fit_grid(w, h, cols, rows);
                if r < rows {
                    assert!(r == 1 || r * 2 * w <= c * h);
                    assert!(c * h <= (r + 1) * 2 * w);
                } else if c < cols {
                    assert!(c == 1 || c * h <= r * 2 * w);
                    assert!(r * 2 * w <= (c + 1) * h);
                }
            }
        }
    }
}

#[test]
fn ramp_runs_from_dark_to_bright() {
    let mut shown = String::new();
    for v in 0..=255u8 {
        let s = to_ascii(&plain([v, v, v]), 1, 1, ColorMode::Mono);
        assert!(s.ends_with("\r\n"));
        let c = s.chars().next().unwrap();
        if !shown.ends_with(c) {
            shown.push(c);
        }
    }
    assert_eq!(shown, " .:-=+*#%@");
}

#[test]
fn luminance_weighs_the_components() {
    assert_eq!(to_ascii(&plain([255, 0, 0]), 1, 1, ColorMode::Mono), ":\r\n");
    assert_eq!(to_ascii(&plain([0, 255, 0]), 1, 1, ColorMode::Mono), "+\r\n");
    assert_eq!(to_ascii(&plain([0, 0, 255]), 1, 1, ColorMode::Mono), ".\r\n");
    assert_eq!(to_ascii(&plain([255, 255, 255]), 1, 1, ColorMode::Mono), "@\r\n");
    assert_eq!(to_ascii(&plain([28, 28, 29]), 1, 1, ColorMode::Mono), " \r\n");
    assert_eq!(to_ascii(&plain([29, 29, 29]), 1, 1, ColorMode::Mono), ".\r\n");
}

#[test]
fn cells_are_means_of_blocks() {
    // the mean of 0, 100, 200 and 7 is 76
    let f = Frame { width: 2, height: 2, rgb: vec![0, 0, 0, 100, 100, 100, 200, 200, 200, 7, 7, 7] };
    assert_eq!(to_ascii(&f, 1, 1, ColorMode::Truecolor), "\x1b[38;2;76;76;76m:\x1b[0m\r\n");
    assert_eq!(
        to_ascii(&f, 2, 1, ColorMode::Truecolor),
        "\x1b[38;2;100;100;100m-\x1b[38;2;53;53;53m.\x1b[0m\r\n"
    );
    assert_eq!(
        to_ascii(&f, 1, 2, ColorMode::Truecolor),
        "\x1b[38;2;50;50;50m.\x1b[0m\r\n\x1b[38;2;103;103;103m-\x1b[0m\r\n"
    );
}

#[test]
fn more_cells_than_pixels_repeat_pixels() {
    let f = Frame { width: 2, height: 1, rgb: vec![0, 0, 0, 255, 255, 255] };
    assert_eq!(to_ascii(&f, 5, 2, ColorMode::Mono), "   @@\r\n   @@\r\n");
}

#[test]
fn fewer_cells_tile_the_frame() {
    // columns 0..2, 2..4 and 4..7 of seven
    let f = frame(7, 1, |x, _| [(x * 30) as u8, 0, 0]);
    assert_eq!(
        to_ascii(&f, 3, 1, ColorMode::Truecolor),
        "\x1b[38;2;15;0;0m \x1b[38;2;75;0;0m \x1b[38;2;150;0;0m.\x1b[0m\r\n"
    );
}

#[test]
fn escapes_come_only_with_changes() {
    let f = frame(4, 2, |x, y| if x < 2 || y == 1 { [10, 20, 30] } else { [200, 100, 0] });
    assert_eq!(
        to_ascii(&f, 4, 2, ColorMode::Truecolor),
        "\x1b[38;2;10;20;30m  \x1b[38;2;200;100;0m==\x1b[0m\r\n\x1b[38;2;10;20;30m    \x1b[0m\r\n"
    );
}

#[test]
fn colors_that_share_an_index_share_an_escape() {
    let f = Frame { width: 3, height: 1, rgb: vec![255, 0, 0, 250, 3, 1, 0, 0, 255] };
    assert_eq!(to_ascii(&f, 3, 1, ColorMode::Ansi256), "\x1b[38;5;196m::\x1b[38;5;21m.\x1b[0m\r\n");
}

fn index_of(c: [u8; 3]) -> u8 {
    let s = to_ascii(&plain(c), 1, 1, ColorMode::Ansi256);
    let rest = s.strip_prefix("\x1b[38;5;").unwrap();
    rest[..rest.find('m').unwrap()].parse().unwrap()
}

fn palette(i: u8) -> [u8; 3] {
    let levels = [0, 95, 135, 175, 215, 255];
    if i < 232 {
        let j = (i - 16) as usize;
        [levels[j / 36], levels[j / 6 % 6], levels[j % 6]]
    } else {
        let v = 8 + 10 * (i - 232);
        [v, v, v]
    }
}

fn distance(a: [u8; 3], b: [u8; 3]) -> i32 {
    (0..3).map(|k| (a[k] as i32 - b[k] as i32).pow(2)).sum()
}

#[test]
fn palette_indices() {
    assert_eq!(index_of([0, 0, 0]), 16);
    assert_eq!(index_of([255, 255, 255]), 231);
    assert_eq!(index_of([255, 0, 0]), 196);
    assert_eq!(index_of([0, 255, 0]), 46);
    assert_eq!(index_of([0, 0, 255]), 21);
    assert_eq!(index_of([8, 8, 8]), 232);
    assert_eq!(index_of([238, 238, 238]), 255);
    assert_eq!(index_of([128, 128, 128]), 244);
    // the nearer of two steps of the ramp: 18 rather than 8
    assert_eq!(index_of([17, 17, 17]), 233);
    assert_eq!(index_of([14, 14, 14]), 233);
    assert_eq!(index_of([13, 13, 13]), 232);
    assert_eq!(index_of([12, 12, 12]), 232);
    // halfway between two levels the lower one is taken
    assert_eq!(index_of([115, 0, 0]), 52);
    assert_eq!(index_of([116, 0, 0]), 88);
    assert_eq!(index_of([47, 255, 255]), 51);
    assert_eq!(index_of([48, 255, 255]), 87);
}

#[test]
fn palette_colors_are_kept() {
    for i in 16..=255u8 {
        assert_eq!(index_of(palette(i)), i);
    }
}

#[test]
fn no_cube_color_is_nearer() {
    for r in (0..256).step_by(23) {
        for g in (0..256).step_by(19) {
            for b in (0..256).step_by(17) {
                let c = [r as u8, g as u8, b as u8];
                let chosen = distance(c, palette(index_of(c)));
                for i in 16..232u8 {
                    assert!(chosen <= distance(c, palette(i)));
                }
            }
        }
    }
}

#[test]
fn plain_frames_are_rendered_plain() {
    let f = frame(9, 5, |_, _| [120, 130, 140]);
    let line = format!("\x1b[38;2;120;130;140m{}\x1b[0m\r\n", "=".repeat(7));
    assert_eq!(to_ascii(&f, 7, 3, ColorMode::Truecolor), line.repeat(3));
}

fn visible(s: &str) -> String {
    let mut out = String::new();
    let mut escaped = false;
    for c in s.chars() {
        if escaped {
            escaped = c != 'm';
        } else if c == '\x1b' {
            escaped = true;
        } else {
            out.push(c);
        }
    }
    out
}

#[test]
fn color_changes_nothing_else() {
    let f = TimecodeSource::new(160, 120, 30).render(61_001);
    let mono = to_ascii(&f, 80, 30, ColorMode::Mono);
    assert!(!mono.contains('\x1b'));
    assert_eq!(mono.chars().count(), 30 * 82);
    assert_eq!(visible(&to_ascii(&f, 80, 30, ColorMode::Truecolor)), mono);
    assert_eq!(visible(&to_ascii(&f, 80, 30, ColorMode::Ansi256)), mono);
}

#[test]
fn empty_grids_and_frames() {
    let f = plain([1, 2, 3]);
    assert_eq!(to_ascii(&f, 0, 0, ColorMode::Truecolor), "");
    assert_eq!(to_ascii(&f, 5, 0, ColorMode::Truecolor), "");
    assert_eq!(to_ascii(&f, 0, 2, ColorMode::Truecolor), "\x1b[0m\r\n\x1b[0m\r\n");
    assert_eq!(to_ascii(&f, 0, 2, ColorMode::Mono), "\r\n\r\n");
    let none = Frame { width: 0, height: 0, rgb: vec![] };
    assert_eq!(to_ascii(&none, 2, 1, ColorMode::Truecolor), "\x1b[38;2;0;0;0m  \x1b[0m\r\n");
}

#[test]
fn half_blocks_show_two_pixels_a_cell() {
    let f = Frame { width: 1, height: 2, rgb: vec![1, 2, 3, 4, 5, 6] };
    assert_eq!(to_half_blocks(&f, 1, 1, ColorMode::Truecolor), "\x1b[38;2;1;2;3m\x1b[48;2;4;5;6m▀\x1b[0m\r\n");
    assert_eq!(to_half_blocks(&f, 1, 1, ColorMode::Mono), to_ascii(&f, 1, 1, ColorMode::Mono));
    let red = frame(1, 2, |_, y| if y == 0 { [255, 0, 0] } else { [0, 0, 255] });
    assert_eq!(to_half_blocks(&red, 2, 1, ColorMode::Ansi256), "\x1b[38;5;196m\x1b[48;5;21m▀▀\x1b[0m\r\n");
}

#[test]
fn half_blocks_repeat_only_what_changes() {
    let f = frame(2, 2, |x, y| if y == 0 { [9, 9, 9] } else { [x as u8, 0, 0] });
    assert_eq!(
        to_half_blocks(&f, 2, 1, ColorMode::Truecolor),
        "\x1b[38;2;9;9;9m\x1b[48;2;0;0;0m▀\x1b[48;2;1;0;0m▀\x1b[0m\r\n"
    );
}

#[test]
fn half_blocks_are_a_table() {
    let f = TimecodeSource::new(160, 120, 30).render(5_000);
    let s = visible(&to_half_blocks(&f, 40, 15, ColorMode::Ansi256));
    assert_eq!(s, format!("{}\r\n", "▀".repeat(40)).repeat(15));
}

#[test]
fn short_frames_cannot_be_rendered() {
    let f = Frame { width: 2, height: 2, rgb: vec![0; 11] };
    assert!(!can_render(&f, 1, 1));
    assert!(can_render(&f, 0, 1));
    assert!(can_render(&f, 1, 0));
    let f = Frame { width: 2, height: 2, rgb: vec![0; 12] };
    assert!(can_render(&f, 80, 24));
    assert!(!can_render(&f, usize::MAX, 1));
    assert!(!can_render(&f, 1, usize::MAX));
    assert!(!can_render(&f, usize::MAX, usize::MAX));
    let wide = Frame { width: usize::MAX, height: usize::MAX, rgb: vec![0; 12] };
    assert!(!can_render(&wide, 1, 1));
}

#[test]
fn rendered_color_is_nearest() {
    for r in (0..256).step_by(13) {
        for g in (0..256).step_by(13) {
            for b in (0..256).step_by(13) {
                let c = [r as u8, g as u8, b as u8];
                let chosen = distance(c, palette(index_of(c)));
                assert!((16..=255u8).all(|i| chosen <= distance(c, palette(i))));
            }
        }
    }
    for v in 0..=255 {
        let chosen = distance([v, v, v], palette(index_of([v, v, v])));
        assert!((16..=255u8).all(|i| chosen <= distance([v, v, v], palette(i))));
    }
}

#[test]
fn rendering_is_idempotent() {
    for v in 0..=255u8 {
        let i = index_of([v, v / 2, 255 - v]);
        assert_eq!(index_of(palette(i)), i);
    }
}

#[test]
fn grid_is_that_of_integers() {
    for cols in 1..100usize {
        for rows in 1..40usize {
            for (w, h) in [(641usize, 479usize), (1919, 1083), (7, 640), (97, 31)] {
                let (by_cols, by_rows) = (cols * h, rows * 2 * w);
                if by_cols % (2 * w) != 0 && by_rows % h != 0 {
                    let most = by_cols / (2 * w);
                    let expected =
                        if most <= rows { (cols, most.max(1)) } else { ((by_rows / h).max(1), rows) };
                    assert_eq!(fit_grid(w, h, cols, rows), expected);
                }
            }
        }
    }
}
