//! What a terminal shows of rendered pictures: each character with the colors in
//! force where it is printed.

use crate::render;
use crate::render::ColorMode;
use crate::text;
use crate::video::Frame;
use crate::video::Rgb;
use vstd::arithmetic::mul::*;
use vstd::prelude::*;

verus! {

/// The color of a part of a character: the terminal's own, a 24-bit color, or one
/// of the terminal's palette.
pub enum Ink {
    Default,
    Color(Rgb),
    Index(int),
}

/// A character on the screen, with its foreground and its background.
pub struct Glyph {
    pub ch: char,
    pub fore: Ink,
    pub back: Ink,
}

/// A terminal: whether it is inside an escape, the numbers of the escape and the
/// one that is being read, the colors in force, and the characters so far, line
/// ends among them.
pub struct Screen {
    pub escape: bool,
    pub args: Seq<int>,
    pub num: int,
    pub fore: Ink,
    pub back: Ink,
    pub glyphs: Seq<Glyph>,
}

/// A terminal with nothing on it.
pub open spec fn blank() -> Screen {
    Screen { escape: false, args: seq![], num: 0, fore: Ink::Default, back: Ink::Default, glyphs: seq![] }
}

impl Screen {
    /// The terminal after an escape with the given numbers, which ends in `m`: `0`
    /// resets the colors; `38` sets the foreground and `48` the background, to the
    /// 24-bit color that follows `2` or to the color of the palette that follows
    /// `5`.
    pub open spec fn colored(self, args: Seq<int>) -> Screen {
        let s = Screen { escape: false, args: seq![], num: 0, ..self };
        if args.len() == 1 && args[0] == 0 {
            Screen { fore: Ink::Default, back: Ink::Default, ..s }
        } else {
            let ink = if args.len() == 5 && args[1] == 2 {
                Some(Ink::Color((args[2] as u8, args[3] as u8, args[4] as u8)))
            } else if args.len() == 3 && args[1] == 5 {
                Some(Ink::Index(args[2]))
            } else {
                None
            };
            match ink {
                None => s,
                Some(ink) => if args[0] == 38 {
                    Screen { fore: ink, ..s }
                } else if args[0] == 48 {
                    Screen { back: ink, ..s }
                } else {
                    s
                },
            }
        }
    }

    /// The terminal after one more character.
    pub open spec fn put(self, c: char) -> Screen {
        if !self.escape {
            if c == '\x1b' {
                Screen { escape: true, args: seq![], num: 0, ..self }
            } else {
                Screen { glyphs: self.glyphs.push(Glyph { ch: c, fore: self.fore, back: self.back }), ..self }
            }
        } else if c == 'm' {
            self.colored(self.args.push(self.num))
        } else if c == ';' {
            Screen { args: self.args.push(self.num), num: 0, ..self }
        } else if '0' <= c <= '9' {
            Screen { num: self.num * 10 + (c as int - 48), ..self }
        } else {
            self
        }
    }

    /// The terminal after some more characters.
    pub open spec fn print(self, s: Seq<char>) -> Screen
        decreases s.len(),
    {
        if s.len() == 0 {
            self
        } else {
            self.print(s.drop_last()).put(s.last())
        }
    }
}

/// Whether `ink` shows the color `c` in a mode: the color itself, a color of the
/// palette that none is nearer to, or no color.
pub open spec fn shows(mode: ColorMode, ink: Ink, c: Rgb) -> bool {
    match mode {
        ColorMode::Truecolor => ink == Ink::Color(c),
        ColorMode::Ansi256 => ink matches Ink::Index(n) && 16 <= n < 256 && forall|k: int|
            16 <= k < 256 ==> render::distance(c, render::palette(n)) <= #[trigger] render::distance(
                c,
                render::palette(k),
            ),
        ColorMode::Mono => ink == Ink::Default,
    }
}

/// What a mode shows a color with.
spec fn tone(mode: ColorMode, c: Rgb) -> Ink {
    match mode {
        ColorMode::Truecolor => Ink::Color(c),
        ColorMode::Ansi256 => Ink::Index(render::ansi256(c)),
        ColorMode::Mono => Ink::Default,
    }
}

proof fn lemma_tone(mode: ColorMode, c: Rgb)
    ensures
        shows(mode, tone(mode, c), c),
{
    if mode == ColorMode::Ansi256 {
        assert(16 <= render::ansi256(c) < 256) by {
            reveal(render::ansi256);
            render::lemma_cube_palette(c);
        }
        assert forall|k: int| 16 <= k < 256 implies render::distance(c, render::palette(render::ansi256(c)))
            <= #[trigger] render::distance(c, render::palette(k)) by {
            render::laws::rendered_color_is_nearest(c, k);
        }
    }
}

/// Colors that a mode does not tell apart are shown alike.
proof fn lemma_same_tone(mode: ColorMode, a: Rgb, b: Rgb)
    requires
        render::ink(mode, a) == render::ink(mode, b),
    ensures
        tone(mode, a) == tone(mode, b),
{
}

proof fn lemma_print_concat(t: Screen, a: Seq<char>, b: Seq<char>)
    ensures
        t.print(a + b) == t.print(a).print(b),
    decreases b.len(),
{
    if b.len() == 0 {
        assert(a + b =~= a);
    } else {
        lemma_print_concat(t, a, b.drop_last());
        assert((a + b).drop_last() =~= a + b.drop_last());
    }
}

proof fn lemma_print_one(t: Screen, c: char)
    ensures
        t.print(seq![c]) == t.put(c),
{
    reveal_with_fuel(Screen::print, 2);
    assert(seq![c].drop_last() =~= Seq::<char>::empty());
}

/// A number inside an escape is read.
proof fn lemma_print_number(t: Screen, n: nat)
    requires
        t.escape,
        t.num == 0,
    ensures
        t.print(text::decimal(n)) == (Screen { num: n as int, ..t }),
    decreases n,
{
    if n < 10 {
        lemma_print_one(t, text::digit(n as int));
    } else {
        lemma_print_number(t, n / 10);
        assert(text::decimal(n).drop_last() =~= text::decimal(n / 10));
        let d = text::digit((n % 10) as int);
        assert('0' <= d <= '9');
    }
}

/// A number and the character behind it, inside an escape.
proof fn lemma_print_arg(t: Screen, n: nat, c: char)
    requires
        t.escape,
        t.num == 0,
        c == ';',
    ensures
        t.print(text::decimal(n) + seq![c]) == (Screen { args: t.args.push(n as int), num: 0, ..t }),
{
    lemma_print_number(t, n);
    lemma_print_concat(t, text::decimal(n), seq![c]);
    lemma_print_one(t.print(text::decimal(n)), c);
}

/// The screen with another color in force.
spec fn inked(t: Screen, ground: nat, ink: Ink) -> Screen {
    let s = Screen { args: seq![], num: 0, ..t };
    if ground == 38 {
        Screen { fore: ink, ..s }
    } else {
        Screen { back: ink, ..s }
    }
}

/// An escape sets the color.
proof fn lemma_print_escape(t: Screen, mode: ColorMode, ground: nat, c: Rgb)
    requires
        !t.escape,
        t.args == Seq::<int>::empty(),
        t.num == 0,
        ground == 38 || ground == 48,
        mode == ColorMode::Mono ==> t.fore == Ink::Default && t.back == Ink::Default,
    ensures
        t.print(render::escape(mode, ground, c)) == inked(t, ground, tone(mode, c)),
{
    let e = render::escape(mode, ground, c);
    let open = Screen { escape: true, args: seq![], num: 0, ..t };
    let start = seq!['\x1b', '['];
    assert(t.print(start) == open) by {
        lemma_print_one(t, '\x1b');
        lemma_print_one(open, '[');
        lemma_print_concat(t, seq!['\x1b'], seq!['[']);
        assert(seq!['\x1b'] + seq!['['] =~= start);
    }
    let g = text::decimal(ground) + seq![';'];
    lemma_print_arg(open, ground, ';');
    lemma_print_concat(t, start, g);
    let t1 = Screen { args: open.args.push(ground as int), ..open };
    match mode {
        ColorMode::Truecolor => {
            let two = text::decimal(2) + seq![';'];
            assert(text::decimal(2) =~= seq!['2']);
            let t2 = Screen { args: t1.args.push(2), ..t1 };
            let t3 = Screen { args: t2.args.push(c.0 as int), ..t2 };
            let t4 = Screen { args: t3.args.push(c.1 as int), ..t3 };
            let t5 = Screen { num: c.2 as int, ..t4 };
            let (r, gr, b) = (
                text::decimal(c.0 as nat) + seq![';'],
                text::decimal(c.1 as nat) + seq![';'],
                text::decimal(c.2 as nat),
            );
            lemma_print_arg(t1, 2, ';');
            lemma_print_arg(t2, c.0 as nat, ';');
            lemma_print_arg(t3, c.1 as nat, ';');
            lemma_print_number(t4, c.2 as nat);
            lemma_print_one(t5, 'm');
            lemma_print_concat(t, start + g, two);
            lemma_print_concat(t, start + g + two, r);
            lemma_print_concat(t, start + g + two + r, gr);
            lemma_print_concat(t, start + g + two + r + gr, b);
            lemma_print_concat(t, start + g + two + r + gr + b, seq!['m']);
            assert(e =~= start + g + two + r + gr + b + seq!['m']);
            let args = t5.args.push(t5.num);
            assert(args =~= seq![ground as int, 2, c.0 as int, c.1 as int, c.2 as int]);
        },
        ColorMode::Ansi256 => {
            let five = text::decimal(5) + seq![';'];
            assert(text::decimal(5) =~= seq!['5']);
            let i = render::ansi256(c);
            lemma_tone(mode, c);
            let t2 = Screen { args: t1.args.push(5), ..t1 };
            let t3 = Screen { num: i, ..t2 };
            lemma_print_arg(t1, 5, ';');
            lemma_print_number(t2, i as nat);
            lemma_print_one(t3, 'm');
            lemma_print_concat(t, start + g, five);
            lemma_print_concat(t, start + g + five, text::decimal(i as nat));
            lemma_print_concat(t, start + g + five + text::decimal(i as nat), seq!['m']);
            assert(e =~= start + g + five + text::decimal(i as nat) + seq!['m']);
            let args = t3.args.push(t3.num);
            assert(args =~= seq![ground as int, 5, i]);
        },
        ColorMode::Mono => {
            assert(e =~= Seq::<char>::empty());
        },
    }
}

/// A screen between two cells.
spec fn at_rest(t: Screen) -> bool {
    !t.escape && t.args == Seq::<int>::empty() && t.num == 0
}

/// The screen after a line end.
proof fn lemma_print_end(t: Screen, mode: ColorMode)
    requires
        at_rest(t),
        mode == ColorMode::Mono ==> t.fore == Ink::Default && t.back == Ink::Default,
    ensures
        ({
            let plain = |c: char| Glyph { ch: c, fore: Ink::Default, back: Ink::Default };
            t.print(render::line_end(mode)) == (Screen {
                fore: Ink::Default,
                back: Ink::Default,
                glyphs: t.glyphs.push(plain('\r')).push(plain('\n')),
                ..t
            })
        }),
{
    let reset = Screen { fore: Ink::Default, back: Ink::Default, ..t };
    let tail = seq!['\r', '\n'];
    lemma_print_one(reset, '\r');
    lemma_print_one(reset.put('\r'), '\n');
    lemma_print_concat(reset, seq!['\r'], seq!['\n']);
    assert(seq!['\r'] + seq!['\n'] =~= tail);
    if mode != ColorMode::Mono {
        let open = Screen { escape: true, args: seq![], num: 0, ..t };
        let head = seq!['\x1b', '[', '0', 'm'];
        lemma_print_one(t, '\x1b');
        lemma_print_one(open, '[');
        lemma_print_one(open, '0');
        lemma_print_one(open.put('0'), 'm');
        lemma_print_concat(t, seq!['\x1b'], seq!['[']);
        lemma_print_concat(t, seq!['\x1b'] + seq!['['], seq!['0']);
        lemma_print_concat(t, seq!['\x1b'] + seq!['['] + seq!['0'], seq!['m']);
        assert(seq!['\x1b'] + seq!['['] + seq!['0'] + seq!['m'] =~= head);
        assert(t.print(head) == reset);
        lemma_print_concat(t, head, tail);
        assert(head + tail =~= render::line_end(mode));
    }
}

/// The glyphs of a line of text.
spec fn cell_glyphs(f: &Frame, cols: int, rows: int, mode: ColorMode, n: int, cy: int) -> Seq<Glyph> {
    Seq::new(
        n as nat,
        |i: int|
            {
                let c = render::cell_color(f, cols, rows, i, cy);
                Glyph { ch: render::ramp_char(c), fore: tone(mode, c), back: Ink::Default }
            },
    )
}

proof fn lemma_print_cells(t: Screen, f: &Frame, cols: int, rows: int, mode: ColorMode, n: int, cy: int)
    requires
        0 <= n,
        at_rest(t),
        t.fore == Ink::Default,
        t.back == Ink::Default,
    ensures
        t.print(render::cells_text(f, cols, rows, mode, n, cy)) == (Screen {
            fore: if n == 0 {
                Ink::Default
            } else {
                tone(mode, render::cell_color(f, cols, rows, n - 1, cy))
            },
            glyphs: t.glyphs + cell_glyphs(f, cols, rows, mode, n, cy),
            ..t
        }),
    decreases n,
{
    if n > 0 {
        lemma_print_cells(t, f, cols, rows, mode, n - 1, cy);
        let before = render::cells_text(f, cols, rows, mode, n - 1, cy);
        let cell = render::cell_text(f, cols, rows, mode, n - 1, cy);
        let c = render::cell_color(f, cols, rows, n - 1, cy);
        let ch = render::ramp_char(c);
        let t1 = t.print(before);
        assert(ch != '\x1b') by {
            assert(0 <= render::luminance(c) * 9 / 255 < 10);
        }
        lemma_print_concat(t, before, cell);
        if n > 1 && render::ink(mode, c) == render::ink(mode, render::cell_color(f, cols, rows, n - 2, cy)) {
            lemma_same_tone(mode, c, render::cell_color(f, cols, rows, n - 2, cy));
            lemma_print_one(t1, ch);
        } else {
            lemma_print_escape(t1, mode, 38, c);
            let t2 = t1.print(render::escape(mode, 38, c));
            lemma_print_one(t2, ch);
            lemma_print_concat(t1, render::escape(mode, 38, c), seq![ch]);
            assert(cell =~= render::escape(mode, 38, c) + seq![ch]);
        }
        assert(t.print(before + cell).glyphs =~= t.glyphs + cell_glyphs(f, cols, rows, mode, n, cy));
    } else {
        assert(t.glyphs + cell_glyphs(f, cols, rows, mode, n, cy) =~= t.glyphs);
    }
}

/// A picture of characters on a terminal: in the cell in column `cx` of line `cy`
/// stands the character for the color of that cell, in that color as far as the
/// mode shows it, and every line ends after its cells.
pub proof fn characters_on_a_screen(f: &Frame, cols: int, rows: int, mode: ColorMode, n: int)
    requires
        0 <= cols,
        0 <= n,
    ensures
        ({
            let t = blank().print(render::lines_text(f, cols, rows, mode, n));
            &&& !t.escape
            &&& t.fore == Ink::Default && t.back == Ink::Default
            &&& t.glyphs.len() == n * (cols + 2)
            &&& forall|cx: int, cy: int|
                0 <= cx < cols && 0 <= cy < n ==> {
                    let g = #[trigger] cell_at(t.glyphs, cols, cx, cy);
                    let c = render::cell_color(f, cols, rows, cx, cy);
                    g.ch == render::ramp_char(c) && shows(mode, g.fore, c) && g.back == Ink::Default
                }
            &&& forall|cy: int| 0 <= cy < n ==> #[trigger] ends_line(t.glyphs, cols, cy)
        }),
{
    lemma_print_lines(f, cols, rows, mode, n, false);
    lemma_table(f, cols, rows, mode, n, false);
    let t = blank().print(render::lines_text(f, cols, rows, mode, n));
    assert forall|cx: int, cy: int| 0 <= cx < cols && 0 <= cy < n implies {
        let g = #[trigger] cell_at(t.glyphs, cols, cx, cy);
        let c = render::cell_color(f, cols, rows, cx, cy);
        g.ch == render::ramp_char(c) && shows(mode, g.fore, c) && g.back == Ink::Default
    } by {
        lemma_tone(mode, render::cell_color(f, cols, rows, cx, cy));
    }
}

/// A picture of half blocks on a terminal: the cell in column `cx` of line `cy` is
/// an upper half block in the color of cell `(cx, 2 * cy)` of a grid with twice as
/// many rows, on the color of cell `(cx, 2 * cy + 1)`, so that every row of that
/// grid is shown once, from the top down.
pub proof fn half_blocks_on_a_screen(f: &Frame, cols: int, rows: int, mode: ColorMode, n: int)
    requires
        0 <= cols,
        0 <= n,
    ensures
        ({
            let t = blank().print(render::half_lines_text(f, cols, rows, mode, n));
            &&& !t.escape
            &&& t.fore == Ink::Default && t.back == Ink::Default
            &&& t.glyphs.len() == n * (cols + 2)
            &&& forall|cx: int, cy: int|
                0 <= cx < cols && 0 <= cy < n ==> {
                    let g = #[trigger] cell_at(t.glyphs, cols, cx, cy);
                    &&& g.ch == '▀'
                    &&& shows(mode, g.fore, render::cell_color(f, cols, 2 * rows, cx, 2 * cy))
                    &&& shows(mode, g.back, render::cell_color(f, cols, 2 * rows, cx, 2 * cy + 1))
                }
            &&& forall|cy: int| 0 <= cy < n ==> #[trigger] ends_line(t.glyphs, cols, cy)
        }),
{
    lemma_print_lines(f, cols, rows, mode, n, true);
    lemma_table(f, cols, rows, mode, n, true);
    let t = blank().print(render::half_lines_text(f, cols, rows, mode, n));
    assert forall|cx: int, cy: int| 0 <= cx < cols && 0 <= cy < n implies {
        let g = #[trigger] cell_at(t.glyphs, cols, cx, cy);
        &&& g.ch == '▀'
        &&& shows(mode, g.fore, render::cell_color(f, cols, 2 * rows, cx, 2 * cy))
        &&& shows(mode, g.back, render::cell_color(f, cols, 2 * rows, cx, 2 * cy + 1))
    } by {
        lemma_tone(mode, render::cell_color(f, cols, 2 * rows, cx, 2 * cy));
        lemma_tone(mode, render::cell_color(f, cols, 2 * rows, cx, 2 * cy + 1));
    }
}

/// The glyph in column `cx` of line `cy`, where lines hold `cols` glyphs and a line
/// end.
pub open spec fn cell_at(s: Seq<Glyph>, cols: int, cx: int, cy: int) -> Glyph {
    s[cy * (cols + 2) + cx]
}

/// Whether a carriage return and a line feed stand behind the glyphs of line `cy`.
pub open spec fn ends_line(s: Seq<Glyph>, cols: int, cy: int) -> bool {
    cell_at(s, cols, cols, cy).ch == '\r' && cell_at(s, cols, cols + 1, cy).ch == '\n'
}

/// The glyphs of a line of half blocks.
spec fn half_glyphs(f: &Frame, cols: int, rows: int, mode: ColorMode, n: int, cy: int) -> Seq<Glyph> {
    Seq::new(
        n as nat,
        |i: int|
            Glyph {
                ch: render::HALF_BLOCK,
                fore: tone(mode, render::cell_color(f, cols, 2 * rows, i, 2 * cy)),
                back: tone(mode, render::cell_color(f, cols, 2 * rows, i, 2 * cy + 1)),
            },
    )
}

proof fn lemma_print_halves(t: Screen, f: &Frame, cols: int, rows: int, mode: ColorMode, n: int, cy: int)
    requires
        0 <= n,
        at_rest(t),
        t.fore == Ink::Default,
        t.back == Ink::Default,
    ensures
        t.print(render::halves_text(f, cols, rows, mode, n, cy)) == (Screen {
            fore: if n == 0 {
                Ink::Default
            } else {
                tone(mode, render::cell_color(f, cols, 2 * rows, n - 1, 2 * cy))
            },
            back: if n == 0 {
                Ink::Default
            } else {
                tone(mode, render::cell_color(f, cols, 2 * rows, n - 1, 2 * cy + 1))
            },
            glyphs: t.glyphs + half_glyphs(f, cols, rows, mode, n, cy),
            ..t
        }),
    decreases n,
{
    if n > 0 {
        lemma_print_halves(t, f, cols, rows, mode, n - 1, cy);
        let before = render::halves_text(f, cols, rows, mode, n - 1, cy);
        let cell = render::half_text(f, cols, rows, mode, n - 1, cy);
        let top = render::cell_color(f, cols, 2 * rows, n - 1, 2 * cy);
        let bottom = render::cell_color(f, cols, 2 * rows, n - 1, 2 * cy + 1);
        let old_top = render::cell_color(f, cols, 2 * rows, n - 2, 2 * cy);
        let old_bottom = render::cell_color(f, cols, 2 * rows, n - 2, 2 * cy + 1);
        let fresh_top = n == 1 || render::ink(mode, top) != render::ink(mode, old_top);
        let fresh_bottom = n == 1 || render::ink(mode, bottom) != render::ink(mode, old_bottom);
        let none = Seq::<char>::empty();
        let a = if fresh_top {
            render::escape(mode, 38, top)
        } else {
            none
        };
        let b = if fresh_bottom {
            render::escape(mode, 48, bottom)
        } else {
            none
        };
        let t1 = t.print(before);
        if !fresh_top {
            lemma_same_tone(mode, top, old_top);
        } else {
            lemma_print_escape(t1, mode, 38, top);
        }
        let t2 = Screen { fore: tone(mode, top), ..t1 };
        assert(t1.print(a) == t2);
        if !fresh_bottom {
            lemma_same_tone(mode, bottom, old_bottom);
        } else {
            lemma_print_escape(t2, mode, 48, bottom);
        }
        let t3 = Screen { back: tone(mode, bottom), ..t2 };
        assert(t2.print(b) == t3);
        let block = seq![render::HALF_BLOCK];
        lemma_print_one(t3, render::HALF_BLOCK);
        lemma_print_concat(t1, a, b);
        lemma_print_concat(t1, a + b, block);
        assert(cell =~= a + b + block);
        lemma_print_concat(t, before, cell);
        assert(t.print(before + cell).glyphs =~= t.glyphs + half_glyphs(f, cols, rows, mode, n, cy));
    } else {
        assert(t.glyphs + half_glyphs(f, cols, rows, mode, n, cy) =~= t.glyphs);
    }
}

/// The first `n` lines of a picture, of half blocks or of characters.
spec fn lines_of(f: &Frame, cols: int, rows: int, mode: ColorMode, n: int, halves: bool) -> Seq<char> {
    if halves {
        render::half_lines_text(f, cols, rows, mode, n)
    } else {
        render::lines_text(f, cols, rows, mode, n)
    }
}

spec fn glyphs_of(f: &Frame, cols: int, rows: int, mode: ColorMode, cy: int, halves: bool) -> Seq<Glyph> {
    if halves {
        half_glyphs(f, cols, rows, mode, cols, cy)
    } else {
        cell_glyphs(f, cols, rows, mode, cols, cy)
    }
}

/// A line end on the screen.
spec fn end_glyphs() -> Seq<Glyph> {
    seq![
        Glyph { ch: '\r', fore: Ink::Default, back: Ink::Default },
        Glyph { ch: '\n', fore: Ink::Default, back: Ink::Default },
    ]
}

/// The glyphs of the first `n` lines.
spec fn table(f: &Frame, cols: int, rows: int, mode: ColorMode, n: int, halves: bool) -> Seq<Glyph>
    decreases n,
{
    if n <= 0 {
        seq![]
    } else {
        table(f, cols, rows, mode, n - 1, halves) + glyphs_of(f, cols, rows, mode, n - 1, halves) + end_glyphs()
    }
}

proof fn lemma_print_lines(f: &Frame, cols: int, rows: int, mode: ColorMode, n: int, halves: bool)
    requires
        0 <= cols,
        0 <= n,
    ensures
        blank().print(lines_of(f, cols, rows, mode, n, halves)) == (Screen {
            glyphs: table(f, cols, rows, mode, n, halves),
            ..blank()
        }),
    decreases n,
{
    if n > 0 {
        lemma_print_lines(f, cols, rows, mode, n - 1, halves);
        let before = lines_of(f, cols, rows, mode, n - 1, halves);
        let cells = if halves {
            render::halves_text(f, cols, rows, mode, cols, n - 1)
        } else {
            render::cells_text(f, cols, rows, mode, cols, n - 1)
        };
        let end = render::line_end(mode);
        let t1 = blank().print(before);
        if halves {
            lemma_print_halves(t1, f, cols, rows, mode, cols, n - 1);
        } else {
            lemma_print_cells(t1, f, cols, rows, mode, cols, n - 1);
        }
        lemma_print_end(t1.print(cells), mode);
        lemma_print_concat(blank(), before, cells);
        lemma_print_concat(blank(), before + cells, end);
        assert(blank().print(before + cells + end).glyphs =~= table(f, cols, rows, mode, n, halves));
    }
}

proof fn lemma_table(f: &Frame, cols: int, rows: int, mode: ColorMode, n: int, halves: bool)
    requires
        0 <= cols,
        0 <= n,
    ensures
        ({
            let t = table(f, cols, rows, mode, n, halves);
            &&& t.len() == n * (cols + 2)
            &&& forall|cx: int, cy: int|
                0 <= cx < cols && 0 <= cy < n ==> #[trigger] cell_at(t, cols, cx, cy) == glyphs_of(
                    f,
                    cols,
                    rows,
                    mode,
                    cy,
                    halves,
                )[cx]
            &&& forall|cy: int| 0 <= cy < n ==> #[trigger] ends_line(t, cols, cy)
        }),
    decreases n,
{
    if n == 0 {
        lemma_mul_basics(cols + 2);
    } else {
        lemma_table(f, cols, rows, mode, n - 1, halves);
        let t1 = table(f, cols, rows, mode, n - 1, halves);
        let line = glyphs_of(f, cols, rows, mode, n - 1, halves);
        let t = table(f, cols, rows, mode, n, halves);
        assert((n - 1) * (cols + 2) + (cols + 2) == n * (cols + 2)) by (nonlinear_arith);
        assert forall|cx: int, cy: int| 0 <= cx < cols + 2 && 0 <= cy < n - 1 implies #[trigger] cell_at(t, cols, cx, cy)
            == cell_at(t1, cols, cx, cy) by {
            let i = cy * (cols + 2) + cx;
            assert(0 <= i < (n - 1) * (cols + 2)) by (nonlinear_arith)
                requires
                    i == cy * (cols + 2) + cx,
                    0 <= cx < cols + 2,
                    0 <= cy < n - 1,
            ;
        }
        assert forall|cx: int, cy: int| 0 <= cx < cols && 0 <= cy < n implies #[trigger] cell_at(t, cols, cx, cy)
            == glyphs_of(f, cols, rows, mode, cy, halves)[cx] by {
            if cy < n - 1 {
                assert(cell_at(t, cols, cx, cy) == cell_at(t1, cols, cx, cy));
            }
        }
        assert forall|cy: int| 0 <= cy < n implies #[trigger] ends_line(t, cols, cy) by {
            if cy < n - 1 {
                assert(ends_line(t1, cols, cy));
                assert(cell_at(t, cols, cols, cy) == cell_at(t1, cols, cols, cy));
                assert(cell_at(t, cols, cols + 1, cy) == cell_at(t1, cols, cols + 1, cy));
            }
        }
    }
}

} // verus!
