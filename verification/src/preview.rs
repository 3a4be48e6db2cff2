//! An offline preview of the picture source: a few frames over one second.

use crate::render;
use crate::render::ColorMode;
use crate::video::Frame;
use vstd::prelude::*;

verus! {

/// What a preview shows.
#[derive(Debug, Clone, Copy, PartialEq, Eq, Structural)]
pub struct Preview {
    pub cols: usize,
    pub rows: usize,
    pub frames: usize,
    pub mode: ColorMode,
}

/// `n`, or `default` where there is none.
pub open spec fn given_or(n: Option<usize>, default: usize) -> usize {
    match n {
        Some(n) => n,
        None => default,
    }
}

/// The color mode that an argument names: truecolor unless it says otherwise.
pub open spec fn mode_named(arg: Option<Seq<char>>) -> ColorMode {
    if arg == Some("256"@) {
        ColorMode::Ansi256
    } else if arg == Some("mono"@) {
        ColorMode::Mono
    } else {
        ColorMode::Truecolor
    }
}

impl Preview {
    /// The preview that the arguments ask for. Sizes that are not given or not
    /// numbers are replaced by defaults.
    pub fn new(cols: Option<usize>, rows: Option<usize>, frames: Option<usize>, mode: &Option<String>) -> (r: Preview)
        ensures
            r.cols == given_or(cols, 100),
            r.rows == given_or(rows, 32),
            r.frames == given_or(frames, 3),
            r.mode == mode_named(crate::text::characters(*mode)),
    {
        let mode: ColorMode = match mode {
            Some(name) => {
                if *name == "256".to_owned() {
                    ColorMode::Ansi256
                } else if *name == "mono".to_owned() {
                    ColorMode::Mono
                } else {
                    ColorMode::Truecolor
                }
            },
            None => ColorMode::Truecolor,
        };
        Preview {
            cols: match cols {
                Some(n) => n,
                None => 100,
            },
            rows: match rows {
                Some(n) => n,
                None => 32,
            },
            frames: match frames {
                Some(n) => n,
                None => 3,
            },
            mode,
        }
    }

    /// The elapsed time of frame `i`: the frames sample one second evenly.
    pub fn elapsed_ms(&self, i: usize) -> (ms: u128)
        requires
            i < self.frames,
        ensures
            ms == i * 1000 / self.frames as int,
            ms < 1000,
    {
        let (n, d): (u128, u128) = (i as u128, self.frames as u128);
        assert(n * 1000 / (d as int) < 1000) by (nonlinear_arith)
            requires
                n < d,
        ;
        n * 1000 / d
    }

    /// A frame as text: half blocks in color, characters without.
    pub fn art(&self, frame: &Frame, cols: usize, rows: usize) -> (out: String)
        requires
            render::renderable(frame, cols as nat, 2 * rows as nat),
        ensures
            self.mode == ColorMode::Mono ==> out@ == render::lines_text(
                frame,
                cols as int,
                rows as int,
                self.mode,
                rows as int,
            ),
            self.mode != ColorMode::Mono ==> out@ == render::half_lines_text(
                frame,
                cols as int,
                rows as int,
                self.mode,
                rows as int,
            ),
    {
        render::to_half_blocks(frame, cols, rows, self.mode)
    }
}

/// An argument names the palette with `256` and no color with `mono`; every other
/// one, and none, means 24-bit color.
pub proof fn modes_are_named(arg: Option<Seq<char>>)
    ensures
        mode_named(arg) == ColorMode::Ansi256 <==> arg == Some(seq!['2', '5', '6']),
        mode_named(arg) == ColorMode::Mono <==> arg == Some(seq!['m', 'o', 'n', 'o']),
{
    reveal_strlit("256");
    reveal_strlit("mono");
    assert("256"@ =~= seq!['2', '5', '6']);
    assert("mono"@ =~= seq!['m', 'o', 'n', 'o']);
    assert(seq!['2', '5', '6'].len() != seq!['m', 'o', 'n', 'o'].len());
}

/// A size that is given counts, whatever the default.
pub proof fn given_sizes_count(n: usize, default: usize)
    ensures
        given_or(Some(n), default) == n,
        given_or(None, default) == default,
{
}

} // verus!
