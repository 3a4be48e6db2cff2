//! What holds of everything that a sender announces and of every pause.

use crate::sender;
use crate::sender::Cadence;
use crate::sender::FrameCfg;
use crate::text;
use crate::text::laws::all_digits;
use crate::text::laws::value;
use vstd::prelude::*;

verus! {

/// The line that describes the picture tells the width, the height, the frame rate
/// and the quality: each number reads back.
pub proof fn source_line_reads_back(cfg: FrameCfg)
    ensures
        ({
            let line = sender::source_line(cfg);
            let (w, h, f, q) = (
                text::decimal(cfg.width as nat),
                text::decimal(cfg.height as nat),
                text::decimal(cfg.fps as nat),
                text::decimal(cfg.quality as nat),
            );
            let a = 11 + w.len() as int;
            let b = a + 1 + h.len();
            let c = b + 3 + f.len();
            let n = line.len() as int;
            &&& line.take(11) == "  source : "@
            &&& value(line.subrange(11, a)) == cfg.width && all_digits(line.subrange(11, a))
            &&& line[a] == 'x'
            &&& value(line.subrange(a + 1, b)) == cfg.height && all_digits(line.subrange(a + 1, b))
            &&& line.subrange(b, b + 3) == " @ "@
            &&& value(line.subrange(b + 3, c)) == cfg.fps && all_digits(line.subrange(b + 3, c))
            &&& line.subrange(c, c + 11) == "fps, jpeg q"@
            &&& value(line.subrange(c + 11, n)) == cfg.quality && all_digits(line.subrange(c + 11, n))
        }),
{
    reveal_strlit("  source : ");
    reveal_strlit("x");
    reveal_strlit(" @ ");
    reveal_strlit("fps, jpeg q");
    let line = sender::source_line(cfg);
    let (w, h, f, q) = (
        text::decimal(cfg.width as nat),
        text::decimal(cfg.height as nat),
        text::decimal(cfg.fps as nat),
        text::decimal(cfg.quality as nat),
    );
    let a = 11 + w.len() as int;
    let b = a + 1 + h.len();
    let c = b + 3 + f.len();
    let n = line.len() as int;
    text::laws::decimal_reads_back(cfg.width as nat);
    text::laws::decimal_reads_back(cfg.height as nat);
    text::laws::decimal_reads_back(cfg.fps as nat);
    text::laws::decimal_reads_back(cfg.quality as nat);
    assert(line.take(11) =~= "  source : "@);
    assert(line.subrange(11, a) =~= w);
    assert(line.subrange(a + 1, b) =~= h);
    assert(line.subrange(b, b + 3) =~= " @ "@);
    assert(line.subrange(b + 3, c) =~= f);
    assert(line.subrange(c, c + 11) =~= "fps, jpeg q"@);
    assert(line.subrange(c + 11, n) =~= q);
}

/// Whether `s` ends with `end`.
pub open spec fn ends_with(s: Seq<char>, end: Seq<char>) -> bool {
    s.len() >= end.len() && s.skip(s.len() - end.len()) == end
}

/// What the sender prints names it, gives its node id, the relay, and the command
/// that starts a receiver for that id.
pub proof fn banner_tells_how_to_connect(name: Seq<char>, id: Seq<char>, cfg: FrameCfg, relay_url: Option<Seq<char>>)
    ensures
        ({
            let lines = sender::banner_text(name, id, cfg, relay_url);
            &&& lines.len() == 10
            &&& lines[1].len() == 11 + name.len() && ends_with(lines[1], name)
            &&& lines[2].len() == 11 + id.len() && ends_with(lines[2], id)
            &&& lines[3] == sender::source_line(cfg)
            &&& relay_url matches Some(url) ==> lines[4].len() == 11 + url.len() + 9 && lines[4].subrange(
                11,
                11 + url.len() as int,
            ) == url
            &&& relay_url is None ==> lines[4] == "  relay  : n0 default"@
            &&& lines[7] == "    viroh-receiver "@ + id
        }),
{
    reveal_strlit("  name   : ");
    reveal_strlit("  node id: ");
    reveal_strlit("  relay  : ");
    reveal_strlit(" (custom)");
    let lines = sender::banner_text(name, id, cfg, relay_url);
    assert(lines[1].skip(11) =~= name);
    assert(lines[2].skip(11) =~= id);
    if let Some(url) = relay_url {
        assert(lines[4].subrange(11, 11 + url.len() as int) =~= url);
    }
}

/// A sender without a frame rate sends a frame each second.
pub proof fn no_rate_is_one_a_second()
    ensures
        sender::frame_time(0) == sender::frame_time(1),
        sender::frame_time(1) * 1 <= 1_000_000_001,
        sender::frame_time(1) * 1 >= 999_999_999,
{
    sender::frame_time_is_accurate(1);
}

/// After a frame the next one is due a frame later if that is still to come, and
/// the pause lasts until then; else it is due at once, without a pause. Frames last
/// as long as before.
pub proof fn frames_are_evenly_spaced(c: Cadence, now: u64)
    requires
        c.next + c.frame <= u64::MAX,
    ensures
        ({
            let (after, pause) = c.advanced(now);
            &&& after.frame == c.frame
            &&& c.next + c.frame > now ==> after.next == c.next + c.frame && pause == Some((c.next + c.frame - now) as u64)
            &&& c.next + c.frame <= now ==> after.next == now && pause is None
        }),
{
}

} // verus!
