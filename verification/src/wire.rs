//! The stream between a sender and a receiver: length-prefixed messages, the
//! first of which is the metadata and the others JPEG frames.

use crate::text;
use vstd::prelude::*;

verus! {

/// ALPN identifier for the viroh Motion-JPEG stream protocol: `viroh/mjpeg/1`.
pub const ALPN: [u8; 13] = [118, 105, 114, 111, 104, 47, 109, 106, 112, 101, 103, 47, 49];

/// Default capture resolution.
pub const WIDTH: usize = 640;

pub const HEIGHT: usize = 480;

/// Default frame rate.
pub const FPS: u32 = 30;

/// Reject absurd frame sizes (corruption / wrong protocol) early.
pub const MAX_FRAME_BYTES: u32 = 16_777_216;

/// Stream metadata sent as the very first message on every connection, before
/// any video frames. It is a length-prefixed JSON object (see [`write_meta`]).
#[derive(Debug)]
pub struct StreamMeta {
    /// Human-friendly agent name (the sender's `--name`).
    pub name: String,
    /// When the sending agent started, as an RFC 3339 timestamp.
    pub started_at: String,
    /// Stream kind, e.g. `"video only"`.
    pub kind: String,
    pub width: usize,
    pub height: usize,
    pub fps: u32,
}

impl Clone for StreamMeta {
    fn clone(&self) -> (r: StreamMeta)
        ensures
            r == *self,
    {
        StreamMeta {
            name: self.name.clone(),
            started_at: self.started_at.clone(),
            kind: self.kind.clone(),
            width: self.width,
            height: self.height,
            fps: self.fps,
        }
    }
}

/// Why a message could not be read.
#[derive(Debug, Clone, Copy, PartialEq, Eq, Structural)]
pub enum WireError {
    /// The length prefix announces more than [`MAX_FRAME_BYTES`].
    TooLarge(u32),
    /// The stream ended inside a message.
    Truncated,
    /// The stream ended before the metadata.
    NoMeta,
}

impl WireError {
    /// What the error reports.
    pub open spec fn text(self) -> Seq<char> {
        match self {
            WireError::TooLarge(len) => "frame too large: "@ + text::decimal(len as nat) + " bytes"@,
            WireError::Truncated => "early eof"@,
            WireError::NoMeta => "stream closed before metadata"@,
        }
    }

    /// The error as a line of text.
    pub fn message(&self) -> (s: String)
        ensures
            s@ == self.text(),
    {
        match self {
            WireError::TooLarge(len) => {
                let mut s = "frame too large: ".to_owned();
                text::push_decimal(&mut s, *len as u128);
                s.append(" bytes");
                s
            },
            WireError::Truncated => "early eof".to_owned(),
            WireError::NoMeta => "stream closed before metadata".to_owned(),
        }
    }
}

/// `n` as four bytes, the most significant first.
pub open spec fn be32(n: u32) -> Seq<u8> {
    seq![(n / 16777216) as u8, (n / 65536 % 256) as u8, (n / 256 % 256) as u8, (n % 256) as u8]
}

/// The number that four bytes stand for, the most significant first.
pub open spec fn of_be32(b: Seq<u8>) -> int {
    b[0] * 16777216 + b[1] * 65536 + b[2] * 256 + b[3]
}

/// The length prefix of a message: its length in 32 bits.
pub open spec fn prefix(len: nat) -> Seq<u8> {
    be32((len % 0x1_0000_0000) as u32)
}

/// A message on the wire: `[u32 big-endian len][bytes]`.
pub open spec fn framed(payload: Seq<u8>) -> Seq<u8> {
    prefix(payload.len()) + payload
}

/// What reading a message from a stream gives.
pub enum Reading {
    /// A message.
    Message(Seq<u8>),
    /// The stream ends here; fewer bytes than a length prefix may be left.
    End,
    /// The length prefix is too large.
    TooLarge(u32),
    /// The stream ends inside the message.
    Truncated,
}

/// Reads the first message of a stream.
pub open spec fn reading(stream: Seq<u8>) -> Reading {
    if stream.len() < 4 {
        Reading::End
    } else {
        let len = of_be32(stream);
        if len > MAX_FRAME_BYTES {
            Reading::TooLarge(len as u32)
        } else if stream.len() < 4 + len {
            Reading::Truncated
        } else {
            Reading::Message(stream.subrange(4, 4 + len))
        }
    }
}

/// What is left of a stream after its first message was read. A read that meets
/// the end takes what is left.
pub open spec fn after(stream: Seq<u8>) -> Seq<u8> {
    match reading(stream) {
        Reading::Message(payload) => stream.skip(4 + payload.len() as int),
        Reading::TooLarge(len) => stream.skip(4),
        _ => Seq::empty(),
    }
}

/// Appends one length-prefixed JPEG frame: `[u32 big-endian len][bytes]`.
pub fn write_frame(out: &mut Vec<u8>, jpeg: &[u8])
    ensures
        final(out)@ == old(out)@ + framed(jpeg@),
{
    let len: u32 = low32(jpeg.len());
    out.push((len / 16777216) as u8);
    out.push((len / 65536 % 256) as u8);
    out.push((len / 256 % 256) as u8);
    out.push((len % 256) as u8);
    assert(out@ =~= old(out)@ + prefix(jpeg@.len()));
    out.extend_from_slice(jpeg);
    assert(out@ =~= old(out)@ + framed(jpeg@));
}

/// The lowest 32 bits of a length.
fn low32(n: usize) -> (r: u32)
    ensures
        r == n as nat % 0x1_0000_0000,
{
    assert(n as u32 == n as u64 % 0x1_0000_0000) by (bit_vector);
    #[verifier::truncate]
    (n as u32)
}

/// Appends the metadata handshake, the first message of a stream. `json` is the
/// [`StreamMeta`] as a JSON object.
pub fn write_meta(out: &mut Vec<u8>, json: &[u8])
    ensures
        final(out)@ == old(out)@ + framed(json@),
{
    write_frame(out, json);
}

/// How far the reading of a message has come.
#[derive(Debug, Clone, Copy, PartialEq, Eq, Structural)]
pub enum Progress {
    /// The length prefix is to be read.
    Prefix,
    /// So many bytes of payload are to be read.
    Payload(u32),
}

/// What a transport brought back for a read of an exact number of bytes.
#[derive(Debug)]
pub enum Received {
    /// All of the bytes.
    Bytes(Vec<u8>),
    /// The stream ended before all of them had come.
    Closed,
}

/// What to do after a read.
#[derive(Debug)]
pub enum Next {
    /// Read on, as the new progress says.
    Read(Progress),
    /// Deliver a message.
    Message(Vec<u8>),
    /// The stream has ended.
    End,
    /// The stream cannot be read any further.
    Fail(WireError),
}

impl Progress {
    /// How many bytes the next read takes.
    pub open spec fn wanted(self) -> nat {
        match self {
            Progress::Prefix => 4,
            Progress::Payload(len) => len as nat,
        }
    }

    /// How many bytes to read next.
    pub fn want(self) -> (n: usize)
        ensures
            n == self.wanted(),
    {
        match self {
            Progress::Prefix => 4,
            Progress::Payload(len) => len as usize,
        }
    }

    /// Decides what to do with what a read of [`Progress::want`] bytes brought.
    ///
    /// A stream that ends where a length prefix is expected has ended; one that
    /// ends inside a payload is truncated.
    pub fn step(self, received: Received) -> (next: Next)
        requires
            received matches Received::Bytes(b) ==> b@.len() == self.wanted(),
        ensures
            (match (self, received) {
                (Progress::Prefix, Received::Closed) => next == Next::End,
                (Progress::Prefix, Received::Bytes(b)) => next == (if of_be32(b@) > MAX_FRAME_BYTES {
                    Next::Fail(WireError::TooLarge(of_be32(b@) as u32))
                } else {
                    Next::Read(Progress::Payload(of_be32(b@) as u32))
                }),
                (Progress::Payload(len), Received::Closed) => next == Next::Fail(WireError::Truncated),
                (Progress::Payload(len), Received::Bytes(b)) => next == Next::Message(b),
            }),
    {
        match received {
            Received::Closed => match self {
                Progress::Prefix => Next::End,
                Progress::Payload(_) => Next::Fail(WireError::Truncated),
            },
            Received::Bytes(b) => match self {
                Progress::Prefix => {
                    let len: u32 = b[0] as u32 * 16777216 + b[1] as u32 * 65536 + b[2] as u32 * 256 + b[3] as u32;
                    if len > MAX_FRAME_BYTES {
                        Next::Fail(WireError::TooLarge(len))
                    } else {
                        Next::Read(Progress::Payload(len))
                    }
                },
                Progress::Payload(_) => Next::Message(b),
            },
        }
    }
}

/// A stream that has been received as a whole.
#[derive(Debug)]
pub struct Incoming {
    bytes: Vec<u8>,
    at: usize,
}

impl View for Incoming {
    type V = Seq<u8>;

    /// The bytes that have not been read yet.
    closed spec fn view(&self) -> Seq<u8> {
        self.bytes@.skip(self.at as int)
    }
}

impl Incoming {
    /// Nothing past the end has been read.
    #[verifier::type_invariant]
    spec fn inv(self) -> bool {
        self.at <= self.bytes@.len()
    }

    /// A stream of these bytes.
    pub fn new(bytes: Vec<u8>) -> (r: Incoming)
        ensures
            r@ == bytes@,
    {
        let r = Incoming { bytes, at: 0 };
        assert(r@ =~= bytes@);
        r
    }

    /// Reads exactly `n` bytes. Where fewer are left, takes them and reports the
    /// end.
    pub fn read_exact(&mut self, n: usize) -> (r: Received)
        ensures
            n <= old(self)@.len() ==> (r matches Received::Bytes(b) && b@ == old(self)@.take(n as int)),
            n <= old(self)@.len() ==> final(self)@ == old(self)@.skip(n as int),
            n > old(self)@.len() ==> r == Received::Closed && final(self)@ == Seq::<u8>::empty(),
    {
        proof {
            use_type_invariant(&*self);
        }
        let left: usize = self.bytes.len() - self.at;
        if n > left {
            self.at = self.bytes.len();
            assert(self@ =~= Seq::<u8>::empty());
            return Received::Closed;
        }
        let mut out: Vec<u8> = Vec::new();
        let end: usize = self.at + n;
        let mut i: usize = self.at;
        while i < end
            invariant
                self.at <= i <= end <= self.bytes@.len(),
                out@ == self.bytes@.subrange(self.at as int, i as int),
            decreases end - i,
        {
            out.push(self.bytes[i]);
            i = i + 1;
            assert(out@ =~= self.bytes@.subrange(self.at as int, i as int));
        }
        assert(out@ =~= self@.take(n as int));
        self.at = end;
        assert(self@ =~= old(self)@.skip(n as int));
        Received::Bytes(out)
    }
}

/// Reads one length-prefixed JPEG frame written by [`write_frame`].
///
/// Returns `Ok(None)` on a clean end-of-stream.
pub fn read_frame(input: &mut Incoming) -> (r: Result<Option<Vec<u8>>, WireError>)
    ensures
        final(input)@ == after(old(input)@),
        (match reading(old(input)@) {
            Reading::Message(payload) => (r matches Ok(Some(v)) && v@ == payload),
            Reading::End => r == Ok::<Option<Vec<u8>>, WireError>(None),
            Reading::TooLarge(len) => r == Err::<Option<Vec<u8>>, WireError>(WireError::TooLarge(len)),
            Reading::Truncated => r == Err::<Option<Vec<u8>>, WireError>(WireError::Truncated),
        }),
{
    let ghost stream = input@;
    let received = input.read_exact(Progress::Prefix.want());
    match Progress::Prefix.step(received) {
        Next::Read(progress) => {
            proof {
                assert(of_be32(stream.take(4)) == of_be32(stream));
            }
            let len: usize = progress.want();
            let received = input.read_exact(len);
            proof {
                if stream.len() >= 4 + len {
                    assert(stream.skip(4).take(len as int) =~= stream.subrange(4, 4 + len));
                    assert(stream.skip(4).skip(len as int) =~= stream.skip(4 + len));
                }
            }
            match progress.step(received) {
                Next::Message(payload) => Ok(Some(payload)),
                Next::Fail(e) => Err(e),
                _ => Ok(None),
            }
        },
        Next::Fail(e) => {
            proof {
                assert(of_be32(stream.take(4)) == of_be32(stream));
            }
            Err(e)
        },
        _ => Ok(None),
    }
}

/// Reads the metadata handshake, the first message on a stream: the bytes of a
/// [`StreamMeta`] as a JSON object.
pub fn read_meta(input: &mut Incoming) -> (r: Result<Vec<u8>, WireError>)
    ensures
        final(input)@ == after(old(input)@),
        (match reading(old(input)@) {
            Reading::Message(payload) => (r matches Ok(v) && v@ == payload),
            Reading::End => r == Err::<Vec<u8>, WireError>(WireError::NoMeta),
            Reading::TooLarge(len) => r == Err::<Vec<u8>, WireError>(WireError::TooLarge(len)),
            Reading::Truncated => r == Err::<Vec<u8>, WireError>(WireError::Truncated),
        }),
{
    let read = read_frame(input);
    meta_message(read)
}

/// The first message of a stream as the metadata: its absence is an error.
pub fn meta_message(read: Result<Option<Vec<u8>>, WireError>) -> (r: Result<Vec<u8>, WireError>)
    ensures
        (match read {
            Ok(Some(v)) => r == Ok::<Vec<u8>, WireError>(v),
            Ok(None) => r == Err::<Vec<u8>, WireError>(WireError::NoMeta),
            Err(e) => r == Err::<Vec<u8>, WireError>(e),
        }),
{
    match read {
        Ok(Some(v)) => Ok(v),
        Ok(None) => Err(WireError::NoMeta),
        Err(e) => Err(e),
    }
}

/// The length in a length prefix can be read back.
proof fn lemma_prefix(n: u32)
    ensures
        of_be32(be32(n)) == n,
        be32(n).len() == 4,
{
    assert(n == n / 16777216 * 16777216 + n / 65536 % 256 * 65536 + n / 256 % 256 * 256 + n % 256) by (nonlinear_arith);
}

/// A frame that was written is read back, and reading leaves what follows it.
/// This holds of every frame that is not larger than the limit.
pub proof fn read_gives_back_write(payload: Seq<u8>, rest: Seq<u8>)
    requires
        payload.len() <= MAX_FRAME_BYTES,
    ensures
        reading(framed(payload) + rest) == Reading::Message(payload),
        after(framed(payload) + rest) == rest,
{
    let n = payload.len() as u32;
    let s = framed(payload) + rest;
    lemma_prefix(n);
    assert(n as nat % 0x1_0000_0000 == n);
    assert(s.take(4) =~= be32(n));
    assert(of_be32(s) == of_be32(be32(n)));
    assert(s.subrange(4, 4 + n as int) =~= payload);
    assert(s.skip(4 + n as int) =~= rest);
}

/// A message is its length, in four bytes with the highest first, and the payload.
pub proof fn messages_tell_their_length(payload: Seq<u8>)
    requires
        payload.len() <= u32::MAX,
    ensures
        ({
            let m = framed(payload);
            &&& m.len() == 4 + payload.len()
            &&& 16777216 * m[0] + 65536 * m[1] + 256 * m[2] + m[3] == payload.len()
            &&& m.skip(4) == payload
        }),
{
    let n = payload.len() as u32;
    let m = framed(payload);
    lemma_prefix(n);
    assert(n as nat % 0x1_0000_0000 == n);
    assert(m.take(4) =~= be32(n));
    assert(m.skip(4) =~= payload);
}

/// The metadata comes back before the first frame, and that frame after it.
pub proof fn handshake_is_read_back(json: Seq<u8>, jpeg: Seq<u8>, rest: Seq<u8>)
    requires
        json.len() <= MAX_FRAME_BYTES,
        jpeg.len() <= MAX_FRAME_BYTES,
    ensures
        ({
            let stream = framed(json) + framed(jpeg) + rest;
            &&& reading(stream) == Reading::Message(json)
            &&& reading(after(stream)) == Reading::Message(jpeg)
            &&& after(after(stream)) == rest
        }),
{
    assert(framed(json) + framed(jpeg) + rest =~= framed(json) + (framed(jpeg) + rest));
    read_gives_back_write(json, framed(jpeg) + rest);
    read_gives_back_write(jpeg, rest);
}

/// A frame larger than the limit is refused, with the length that its prefix
/// announces.
pub proof fn read_refuses_large_frames(payload: Seq<u8>, rest: Seq<u8>)
    requires
        payload.len() > MAX_FRAME_BYTES,
        payload.len() <= u32::MAX,
    ensures
        reading(framed(payload) + rest) == Reading::TooLarge(payload.len() as u32),
{
    let n = payload.len() as u32;
    let s = framed(payload) + rest;
    lemma_prefix(n);
    assert(n as nat % 0x1_0000_0000 == n);
    assert(s.take(4) =~= be32(n));
    assert(of_be32(s) == of_be32(be32(n)));
}

/// Messages one after the other on the wire.
pub open spec fn stream_of(messages: Seq<Seq<u8>>) -> Seq<u8>
    decreases messages.len(),
{
    if messages.len() == 0 {
        Seq::empty()
    } else {
        framed(messages.first()) + stream_of(messages.drop_first())
    }
}

/// All messages that are read from a stream until it ends or fails, and how the
/// reading ended.
pub open spec fn messages_of(stream: Seq<u8>) -> (Seq<Seq<u8>>, Reading)
    decreases stream.len(),
{
    match reading(stream) {
        Reading::Message(payload) => {
            let (messages, end) = messages_of(stream.skip(4 + payload.len() as int));
            (seq![payload] + messages, end)
        },
        end => (Seq::empty(), end),
    }
}

/// A receiver reads exactly the messages that the sender wrote, in order, and
/// then a clean end of the stream.
pub proof fn session_is_read_back(messages: Seq<Seq<u8>>)
    requires
        forall|i: int| 0 <= i < messages.len() ==> (#[trigger] messages[i]).len() <= MAX_FRAME_BYTES,
    ensures
        messages_of(stream_of(messages)) == (messages, Reading::End),
    decreases messages.len(),
{
    if messages.len() > 0 {
        let rest = messages.drop_first();
        assert forall|i: int| 0 <= i < rest.len() implies (#[trigger] rest[i]).len() <= MAX_FRAME_BYTES by {
            assert(rest[i] == messages[i + 1]);
        }
        session_is_read_back(rest);
        read_gives_back_write(messages.first(), stream_of(rest));
        assert(seq![messages.first()] + rest =~= messages);
    }
}

/// A stream that breaks off inside a message never yields that message: either
/// not even the length prefix is left, or the message is truncated.
pub proof fn broken_message_is_not_read(payload: Seq<u8>, cut: int)
    requires
        payload.len() <= MAX_FRAME_BYTES,
        0 <= cut < framed(payload).len(),
    ensures
        reading(framed(payload).take(cut)) == (if cut < 4 {
            Reading::End
        } else {
            Reading::Truncated
        }),
{
    let n = payload.len() as u32;
    let s = framed(payload).take(cut);
    lemma_prefix(n);
    assert(n as nat % 0x1_0000_0000 == n);
    if cut >= 4 {
        assert(s.take(4) =~= be32(n));
        assert(of_be32(s) == of_be32(be32(n)));
    }
}

} // verus!
