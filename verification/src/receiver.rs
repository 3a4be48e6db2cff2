//! The receiver: which colors it uses, what it makes of a frame and where it
//! paints it.

use crate::codec;
use crate::render;
use crate::render::ColorMode;
use crate::video::Frame;
use crate::wire::StreamMeta;
use vstd::prelude::*;

verus! {

/// Color output mode. `Auto` uses 24-bit if `$COLORTERM` advertises it, else
/// 256-color (correct on macOS Terminal, which lacks 24-bit support).
#[derive(Debug, Clone, Copy, PartialEq, Eq, Structural)]
pub enum ColorArg {
    /// Detect from `$COLORTERM`; fall back to 256-color.
    Auto,
    /// 24-bit truecolor (iTerm2, Ghostty, kitty, WezTerm).
    Truecolor,
    /// 256-color palette (works in macOS Terminal).
    C256,
    /// No color, characters only (works anywhere).
    Mono,
}

/// Whether a value of `$COLORTERM` advertises 24-bit color.
pub open spec fn advertises_truecolor(colorterm: Option<Seq<char>>) -> bool {
    colorterm == Some("truecolor"@) || colorterm == Some("24bit"@)
}

impl ColorArg {
    /// Resolves `Auto` against the value of `$COLORTERM`, if there is one that is
    /// text, into a concrete render mode.
    pub fn resolve(self, colorterm: &Option<String>) -> (r: ColorMode)
        ensures
            r == (match self {
                ColorArg::Truecolor => ColorMode::Truecolor,
                ColorArg::C256 => ColorMode::Ansi256,
                ColorArg::Mono => ColorMode::Mono,
                ColorArg::Auto => if advertises_truecolor(crate::text::characters(*colorterm)) {
                    ColorMode::Truecolor
                } else {
                    ColorMode::Ansi256
                },
            }),
    {
        match self {
            ColorArg::Truecolor => ColorMode::Truecolor,
            ColorArg::C256 => ColorMode::Ansi256,
            ColorArg::Mono => ColorMode::Mono,
            ColorArg::Auto => match colorterm {
                Some(value) => {
                    if *value == "truecolor".to_owned() || *value == "24bit".to_owned() {
                        ColorMode::Truecolor
                    } else {
                        ColorMode::Ansi256
                    }
                },
                None => ColorMode::Ansi256,
            },
        }
    }
}

/// A key that was pressed.
#[derive(Debug, Clone, Copy, PartialEq, Eq, Structural)]
pub enum Key {
    /// A character.
    Char(char),
    /// The escape key.
    Esc,
    /// Any other key.
    Other,
}

/// Whether a key press quits the receiver (`q`, `Esc`, or `Ctrl-C`).
pub fn quits(key: Key, control: bool) -> (r: bool)
    ensures
        r <==> key == Key::Char('q') || key == Key::Esc || key == Key::Char('c') && control,
{
    match key {
        Key::Char(c) => c == 'q' || c == 'c' && control,
        Key::Esc => true,
        Key::Other => false,
    }
}

/// What the receiver says of the stream before the first frame.
pub open spec fn greeting_text(name: Seq<char>, kind: Seq<char>, started_at: Seq<char>) -> Seq<char> {
    "stream from \""@ + name + "\" ("@ + kind + "), started "@ + started_at
}

/// What the receiver says of the stream before the first frame.
pub fn greeting(meta: &StreamMeta) -> (s: String)
    ensures
        s@ == greeting_text(meta.name@, meta.kind@, meta.started_at@),
{
    let mut s = "stream from \"".to_owned();
    s.append(meta.name.as_str());
    s.append("\" (");
    s.append(meta.kind.as_str());
    s.append("), started ");
    s.append(meta.started_at.as_str());
    s
}

/// Where a frame is painted.
#[derive(Debug, Clone, Copy, PartialEq, Eq, Structural)]
pub struct Layout {
    /// Whether the screen is cleared first.
    pub clear: bool,
    /// The grid of character cells for the frame.
    pub cols: usize,
    pub rows: usize,
    /// The row of the status line.
    pub status_row: u16,
}

/// What the receiver has seen so far.
#[derive(Debug, Clone, Copy)]
pub struct Viewer {
    /// Frames received, corrupt ones among them.
    pub frames: u64,
    /// Bytes of frames received.
    pub bytes_total: u64,
    /// Frames received since the frame rate was last estimated.
    pub window_frames: u64,
    /// The terminal size that the last frame was painted for.
    pub last_dims: (u16, u16),
}

/// The terminal's rows without the status line.
pub open spec fn rows_above_status(rows: u16) -> u16 {
    if rows > 0 {
        (rows - 1) as u16
    } else {
        0
    }
}

impl Viewer {
    /// A receiver that has seen nothing.
    pub fn new() -> (r: Viewer)
        ensures
            r == (Viewer { frames: 0, bytes_total: 0, window_frames: 0, last_dims: (0, 0) }),
    {
        Viewer { frames: 0, bytes_total: 0, window_frames: 0, last_dims: (0, 0) }
    }

    /// Counts and decodes a frame. A corrupt frame, or one that the decoder cannot
    /// be handed, counts, but is skipped rather than shown.
    pub fn receive(&mut self, jpeg: &[u8]) -> (r: Option<Frame>)
        requires
            old(self).frames < u64::MAX,
            old(self).window_frames < u64::MAX,
            old(self).bytes_total + jpeg@.len() <= u64::MAX,
        ensures
            *final(self) == (Viewer {
                frames: (old(self).frames + 1) as u64,
                window_frames: (old(self).window_frames + 1) as u64,
                bytes_total: (old(self).bytes_total + jpeg@.len()) as u64,
                ..*old(self)
            }),
            codec::decodable(jpeg@) ==> (match codec::jpeg_decoding(jpeg@) {
                Ok((pixels, Some((w, h)))) => (r matches Some(f) && f.width == w && f.height == h && f.rgb@
                    == codec::as_rgb(pixels, w, h)),
                _ => r is None,
            }),
            codec::decodable(jpeg@) ==> (codec::jpeg_decoding(jpeg@) matches Ok((pixels, Some((w, h)))) ==> (
            r matches Some(f) && codec::in_place(pixels, w, h, &f))),
            !codec::decodable(jpeg@) ==> r is None,
            r matches Some(f) ==> f.wf() && f.width > 0 && f.height > 0,
    {
        self.frames = self.frames + 1;
        self.window_frames = self.window_frames + 1;
        self.bytes_total = self.bytes_total + jpeg.len() as u64;
        if !codec::can_decode(jpeg) {
            return None;
        }
        shown(codec::decode_jpeg(jpeg))
    }

    /// Lays out a frame on a terminal of the given size. The bottom row is
    /// reserved for a status line, and the screen is cleared when the size is
    /// not that of the frame before.
    pub fn lay_out(&mut self, width: usize, height: usize, size: (u16, u16)) -> (r: Layout)
        ensures
            *final(self) == (Viewer { last_dims: size, ..*old(self) }),
            r.clear == (size != old(self).last_dims),
            (r.cols as nat, r.rows as nat) == render::grid(
                width as nat,
                height as nat,
                size.0 as nat,
                rows_above_status(size.1) as nat,
            ),
            r.status_row == rows_above_status(size.1),
    {
        let clear: bool = size.0 != self.last_dims.0 || size.1 != self.last_dims.1;
        self.last_dims = size;
        let above: u16 = size.1.saturating_sub(1);
        let (cols, rows) = render::fit_grid(width, height, size.0 as usize, above as usize);
        Layout { clear, cols, rows, status_row: above }
    }

    /// Starts a new window for the estimate of the frame rate. Returns the frames
    /// of the old one.
    pub fn new_window(&mut self) -> (r: u64)
        ensures
            r == old(self).window_frames,
            *final(self) == (Viewer { window_frames: 0, ..*old(self) }),
    {
        let r: u64 = self.window_frames;
        self.window_frames = 0;
        r
    }
}

/// The frame to show, if it could be decoded.
pub fn shown(decoded: Result<Frame, codec::CodecError>) -> (r: Option<Frame>)
    ensures
        decoded matches Ok(f) ==> r == Some(f),
        decoded is Err ==> r is None,
{
    match decoded {
        Ok(f) => Some(f),
        Err(_) => None,
    }
}

/// The greeting quotes the name, and tells the kind of the stream and its start.
pub proof fn greeting_tells_the_stream(name: Seq<char>, kind: Seq<char>, started_at: Seq<char>)
    ensures
        ({
            let s = greeting_text(name, kind, started_at);
            let (a, b) = (13 + name.len() as int, 16 + name.len() + kind.len() as int);
            &&& s.take(13) == "stream from \""@
            &&& s.subrange(13, a) == name
            &&& s.subrange(a, a + 3) == "\" ("@
            &&& s.subrange(a + 3, b) == kind
            &&& s.subrange(b, b + 11) == "), started "@
            &&& s.skip(b + 11) == started_at
        }),
{
    reveal_strlit("stream from \"");
    reveal_strlit("\" (");
    reveal_strlit("), started ");
    let s = greeting_text(name, kind, started_at);
    let (a, b) = (13 + name.len() as int, 16 + name.len() + kind.len() as int);
    assert(s.take(13) =~= "stream from \""@);
    assert(s.subrange(13, a) =~= name);
    assert(s.subrange(a, a + 3) =~= "\" ("@);
    assert(s.subrange(a + 3, b) =~= kind);
    assert(s.subrange(b, b + 11) =~= "), started "@);
    assert(s.skip(b + 11) =~= started_at);
}

/// The status line takes the last row, where there is one.
pub proof fn status_takes_the_last_row(rows: u16)
    ensures
        rows > 0 ==> rows_above_status(rows) + 1 == rows,
        rows == 0 ==> rows_above_status(rows) == 0,
{
}

/// A terminal has 24-bit color where `$COLORTERM` says `truecolor` or `24bit`, and
/// with no other value and without one.
pub proof fn truecolor_is_advertised(value: Seq<char>)
    ensures
        !advertises_truecolor(None),
        advertises_truecolor(Some(value)) <==> value == seq!['t', 'r', 'u', 'e', 'c', 'o', 'l', 'o', 'r'] || value
            == seq!['2', '4', 'b', 'i', 't'],
{
    reveal_strlit("truecolor");
    reveal_strlit("24bit");
    assert("truecolor"@ =~= seq!['t', 'r', 'u', 'e', 'c', 'o', 'l', 'o', 'r']);
    assert("24bit"@ =~= seq!['2', '4', 'b', 'i', 't']);
}

} // verus!
