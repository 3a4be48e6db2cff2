//! The sender: what it announces, and the messages and pauses of a stream.

pub mod laws;

use crate::binary64;
use crate::binary64::Binary64;
use crate::codec;
use crate::codec::CodecError;
use crate::text;
use crate::video;
use crate::video::TimecodeSource;
use crate::wire;
use crate::wire::StreamMeta;
use vstd::arithmetic::mul::*;
use vstd::arithmetic::power2::*;
use vstd::prelude::*;

verus! {

/// Frame-generation parameters.
#[derive(Debug, Clone, Copy, PartialEq, Eq, Structural)]
pub struct FrameCfg {
    pub fps: u32,
    pub quality: u8,
    pub width: usize,
    pub height: usize,
}

/// The kind of stream that the sender offers.
pub const KIND: &'static str = "video only";

/// Metadata advertised to every receiver. `started_at` is fixed at agent
/// startup so all receivers see the same "since" time.
pub fn stream_meta(name: &String, started_at: &String, cfg: FrameCfg) -> (r: StreamMeta)
    ensures
        r.name == *name,
        r.started_at == *started_at,
        r.kind@ == KIND@,
        r.width == cfg.width,
        r.height == cfg.height,
        r.fps == cfg.fps,
{
    StreamMeta {
        name: name.clone(),
        started_at: started_at.clone(),
        kind: KIND.to_owned(),
        width: cfg.width,
        height: cfg.height,
        fps: cfg.fps,
    }
}

/// The line that announces the node id.
pub open spec fn node_id_line(id: Seq<char>) -> Seq<char> {
    "  node id: "@ + id
}

/// The line that describes the picture.
pub open spec fn source_line(cfg: FrameCfg) -> Seq<char> {
    "  source : "@ + text::decimal(cfg.width as nat) + "x"@ + text::decimal(cfg.height as nat) + " @ "@
        + text::decimal(cfg.fps as nat) + "fps, jpeg q"@ + text::decimal(cfg.quality as nat)
}

/// The line that names the relay.
pub open spec fn relay_line(relay_url: Option<Seq<char>>) -> Seq<char> {
    match relay_url {
        Some(url) => "  relay  : "@ + url + " (custom)"@,
        None => "  relay  : n0 default"@,
    }
}

/// What the sender prints when it is ready, line by line.
pub open spec fn banner_text(
    name: Seq<char>,
    id: Seq<char>,
    cfg: FrameCfg,
    relay_url: Option<Seq<char>>,
) -> Seq<Seq<char>> {
    seq![
        "viroh sender ready."@,
        "  name   : "@ + name,
        node_id_line(id),
        source_line(cfg),
        relay_line(relay_url),
        ""@,
        "Start a receiver with:"@,
        "    viroh-receiver "@ + id,
        ""@,
        "Waiting for receivers (Ctrl-C to quit)..."@,
    ]
}

/// The two strings, one after the other.
fn join(a: &str, b: &str) -> (s: String)
    ensures
        s@ == a@ + b@,
{
    let mut s = a.to_owned();
    s.append(b);
    s
}

/// What the sender prints when it is ready, line by line.
pub fn banner(name: &str, id: &str, cfg: FrameCfg, relay_url: &Option<String>) -> (r: Vec<String>)
    ensures
        text::lines(r@) == banner_text(name@, id@, cfg, text::characters(*relay_url)),
{
    let mut source = "  source : ".to_owned();
    text::push_decimal(&mut source, cfg.width as u128);
    source.append("x");
    text::push_decimal(&mut source, cfg.height as u128);
    source.append(" @ ");
    text::push_decimal(&mut source, cfg.fps as u128);
    source.append("fps, jpeg q");
    text::push_decimal(&mut source, cfg.quality as u128);
    let relay = match relay_url {
        Some(url) => {
            let mut s = join("  relay  : ", url.as_str());
            s.append(" (custom)");
            s
        },
        None => "  relay  : n0 default".to_owned(),
    };
    let mut r: Vec<String> = Vec::new();
    r.push("viroh sender ready.".to_owned());
    r.push(join("  name   : ", name));
    r.push(join("  node id: ", id));
    r.push(source);
    r.push(relay);
    r.push("".to_owned());
    r.push("Start a receiver with:".to_owned());
    r.push(join("    viroh-receiver ", id));
    r.push("".to_owned());
    r.push("Waiting for receivers (Ctrl-C to quit)...".to_owned());
    assert(text::lines(r@) =~= banner_text(name@, id@, cfg, text::characters(*relay_url)));
    r
}

/// How long a frame lasts, in nanoseconds: the double nearest to one over the
/// frame rate, in seconds, to the nearest nanosecond.
pub open spec fn frame_time(fps: u32) -> nat {
    let rate = if fps > 1 {
        fps as nat
    } else {
        1
    };
    binary64::nanos(binary64::quotient(binary64::of_nat(1), binary64::of_nat(rate)))
}

/// How long a frame lasts, in nanoseconds.
pub fn frame_nanos(fps: u32) -> (r: u64)
    ensures
        r == frame_time(fps),
        r <= 1_000_000_000,
{
    let rate: u64 = if fps > 1 { fps as u64 } else { 1 };
    proof {
        binary64::lemma_reciprocal(rate as nat);
    }
    Binary64::of_u64(1).over(Binary64::of_u64(rate)).to_nanos()
}

/// When the next frame is due, in nanoseconds since some moment, and how long a
/// frame lasts.
#[derive(Debug, Clone, Copy, PartialEq, Eq, Structural)]
pub struct Cadence {
    pub next: u64,
    pub frame: u64,
}

impl Cadence {
    /// The cadence after a frame was sent, and how long to pause until the next
    /// one is due, or `None` if it is due already.
    pub open spec fn advanced(self, now: u64) -> (Cadence, Option<u64>) {
        let due = self.next + self.frame;
        if due > now {
            (Cadence { next: due as u64, ..self }, Some((due - now) as u64))
        } else {
            (Cadence { next: now, ..self }, None)
        }
    }

    /// A cadence that starts now.
    pub fn new(now: u64, fps: u32) -> (r: Cadence)
        ensures
            r.next == now,
            r.frame == frame_time(fps),
            r.frame <= 1_000_000_000,
    {
        Cadence { next: now, frame: frame_nanos(fps) }
    }

    /// A frame was sent. Returns how long to pause until the next one is due, or
    /// `None` if it is due already: then the cadence starts afresh rather than
    /// send a burst of frames.
    pub fn advance(&mut self, now: u64) -> (pause: Option<u64>)
        requires
            old(self).next + old(self).frame <= u64::MAX,
        ensures
            (*final(self), pause) == old(self).advanced(now),
    {
        let due: u64 = self.next + self.frame;
        if due > now {
            self.next = due;
            Some(due - now)
        } else {
            self.next = now;
            None
        }
    }
}

/// What a stream sends: the state of its picture source and the JPEG quality of
/// its frames.
pub struct StreamerState {
    pub source: video::SourceState,
    pub quality: u8,
}

/// The frames of one stream.
pub struct Streamer {
    source: TimecodeSource,
    quality: u8,
}

impl View for Streamer {
    type V = StreamerState;

    closed spec fn view(&self) -> StreamerState {
        StreamerState { source: self.source@, quality: self.quality }
    }
}

impl Streamer {
    /// A stream that starts with frame zero.
    pub fn new(cfg: FrameCfg) -> (r: Streamer)
        ensures
            r@.source == (video::SourceState {
                width: cfg.width as nat,
                height: cfg.height as nat,
                fps: cfg.fps as nat,
                frame_no: 0,
            }),
            r@.quality == cfg.quality,
    {
        Streamer { source: TimecodeSource::new(cfg.width, cfg.height, cfg.fps), quality: cfg.quality }
    }

    /// The message with the frame for a given elapsed time: the test picture,
    /// encoded and framed. The encoder refuses a frame only where the lowest 16
    /// bits of a side are zero.
    pub fn next_message(&mut self, elapsed_ms: u128) -> (r: Result<Vec<u8>, CodecError>)
        requires
            video::drawable(old(self)@.source.width, old(self)@.source.height),
            old(self)@.source.frame_no < u64::MAX,
            codec::side(old(self)@.source.width as usize) * codec::side(old(self)@.source.height as usize) * 3 <= usize::MAX,
        ensures
            final(self)@.source == (video::SourceState { frame_no: old(self)@.source.frame_no + 1, ..old(self)@.source }),
            final(self)@.quality == old(self)@.quality,
            r is Ok <==> codec::side(old(self)@.source.width as usize) > 0 && codec::side(old(self)@.source.height as usize) > 0,
            r matches Ok(bytes) ==> exists|f: video::Frame| #[trigger]
                old(self)@.source.pictured(elapsed_ms as nat, &f) && bytes@ == wire::framed(
                    codec::jpeg_encoding(f.rgb@, codec::side(f.width), codec::side(f.height), old(self)@.quality),
                ),
            r matches Err(e) ==> (e matches CodecError::Encode(s) && s@ == codec::refusal(
                old(self)@.source.width * old(self)@.source.height * 3,
                codec::side(old(self)@.source.width as usize),
                codec::side(old(self)@.source.height as usize),
            )),
    {
        let frame = self.source.render(elapsed_ms);
        proof {
            assert(old(self)@.source.pictured(elapsed_ms as nat, &frame));
            let (w, h) = (codec::side(frame.width) as int, codec::side(frame.height) as int);
            assert(w <= frame.width && h <= frame.height);
            lemma_mul_upper_bound(w, frame.width as int, h, frame.height as int);
        }
        let jpeg = codec::encode_jpeg(&frame, self.quality)?;
        let mut out: Vec<u8> = Vec::new();
        wire::write_frame(&mut out, jpeg.as_slice());
        assert(out@ =~= wire::framed(jpeg@));
        Ok(out)
    }
}

/// A frame lasts one over the frame rate, to within a nanosecond.
pub proof fn frame_time_is_accurate(fps: u32)
    requires
        fps > 0,
    ensures
        1_000_000_000 - fps <= frame_time(fps) * fps <= 1_000_000_000 + fps,
{
    let n = fps as int;
    let q = binary64::quotient(binary64::of_nat(1), binary64::of_nat(fps as nat));
    let p = pow2((-q.e) as nat) as int;
    let m = q.m as int;
    let g = binary64::NANOS as int;
    let t = frame_time(fps) as int;
    binary64::lemma_reciprocal(fps as nat);
    lemma_pow2_pos((-q.e) as nat);
    binary64::lemma_half_even(q.m * binary64::NANOS as nat, p as nat);
    assert(2 * (t * p - m * g) <= p && 2 * (m * g - t * p) <= p);
    assert(2 * (t * p - m * g) * n <= p * n && 2 * (m * g - t * p) * n <= p * n) by (nonlinear_arith)
        requires
            2 * (t * p - m * g) <= p,
            2 * (m * g - t * p) <= p,
            n > 0,
    ;
    assert(2 * (m * n - p) * g <= n * g && 2 * (p - m * n) * g <= n * g) by (nonlinear_arith)
        requires
            2 * (m * n - p) <= n,
            2 * (p - m * n) <= n,
            g > 0,
    ;
    assert(n * g <= n * p) by (nonlinear_arith)
        requires
            g <= p,
            n > 0,
    ;
    assert(2 * (t * p - m * g) * n + 2 * (m * n - p) * g == 2 * p * (t * n - g)) by (nonlinear_arith);
    assert(2 * (m * g - t * p) * n + 2 * (p - m * n) * g == 2 * p * (g - t * n)) by (nonlinear_arith);
    assert(t * n - g <= n && g - t * n <= n) by (nonlinear_arith)
        requires
            2 * p * (t * n - g) <= p * n + n * p,
            2 * p * (g - t * n) <= p * n + n * p,
            p > 0,
    ;
}

/// The next frame is never due in the past, and the pause ends when it is due.
pub proof fn cadence_looks_ahead(c: Cadence, now: u64)
    requires
        c.next + c.frame <= u64::MAX,
    ensures
        ({
            let (after, pause) = c.advanced(now);
            &&& after.next >= now
            &&& pause matches Some(p) ==> now + p == after.next && p > 0
            &&& pause is None ==> after.next == now
        }),
{
}

/// A sender that is on time does not drift: the next frame is due one frame after
/// this one.
pub proof fn cadence_does_not_drift(c: Cadence, now: u64)
    requires
        c.next + c.frame <= u64::MAX,
        now < c.next + c.frame,
    ensures
        c.advanced(now).0.next == c.next + c.frame,
{
}

/// A sender that fell behind does not send a burst: after it caught up at `now`,
/// the frame after the next one is due a whole frame later.
pub proof fn cadence_does_not_burst(c: Cadence, now: u64, later: u64)
    requires
        c.next + c.frame <= now,
        now + c.frame <= u64::MAX,
        now <= later < now + c.frame,
    ensures
        c.advanced(now).0.advanced(later).0.next == now + c.frame,
        c.advanced(now).0.advanced(later).1 == Some((now + c.frame - later) as u64),
{
}

} // verus!
