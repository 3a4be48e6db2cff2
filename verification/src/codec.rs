//! The Motion-JPEG codec: frames to JPEG images and back.

pub use crate::jpeg::can_decode;
pub use crate::jpeg::decodable;
pub use crate::jpeg::MAX_SIDE;

use crate::text;
use crate::video;
use crate::video::Frame;
use vstd::prelude::*;

verus! {

/// Why a frame could not be encoded or decoded.
#[derive(Debug)]
pub enum CodecError {
    /// The encoder refused the frame.
    Encode(String),
    /// The decoder refused the bytes.
    Decode(String),
    /// The decoder gave pixels but no dimensions.
    NoInfo,
}

impl CodecError {
    /// What the error reports.
    pub open spec fn text(self) -> Seq<char> {
        match self {
            CodecError::Encode(e) => "jpeg encode failed: "@ + e@,
            CodecError::Decode(e) => "jpeg decode failed: "@ + e@,
            CodecError::NoInfo => "jpeg decode produced no image info"@,
        }
    }

    /// The error as a line of text.
    pub fn message(&self) -> (s: String)
        ensures
            s@ == self.text(),
    {
        match self {
            CodecError::Encode(e) => {
                let mut s = "jpeg encode failed: ".to_owned();
                s.append(e.as_str());
                s
            },
            CodecError::Decode(e) => {
                let mut s = "jpeg decode failed: ".to_owned();
                s.append(e.as_str());
                s
            },
            CodecError::NoInfo => "jpeg decode produced no image info".to_owned(),
        }
    }
}

/// The image that `jpeg_encoder::Encoder` writes for RGB pixels.
pub uninterp spec fn jpeg_encoding(rgb: Seq<u8>, width: u16, height: u16, quality: u8) -> Seq<u8>;

/// What `zune_jpeg::JpegDecoder` makes of an image: the pixels and the
/// dimensions, or the text of its error.
pub uninterp spec fn jpeg_decoding(bytes: Seq<u8>) -> Result<(Seq<u8>, Option<(u16, u16)>), Seq<char>>;

/// The decoder's result, taken by its view.
pub open spec fn outcome(
    r: Result<(Vec<u8>, Option<(u16, u16)>), String>,
) -> Result<(Seq<u8>, Option<(u16, u16)>), Seq<char>> {
    match r {
        Ok(image) => Ok((image.0@, image.1)),
        Err(e) => Err(e@),
    }
}

/// Whether `len` bytes hold an RGB image of these dimensions that can be
/// encoded.
pub open spec fn encodable(len: nat, width: u16, height: u16) -> bool {
    width > 0 && height > 0 && width * height * 3 <= len
}

/// What the encoder reports of an image that it refuses.
pub open spec fn refusal(len: nat, width: u16, height: u16) -> Seq<char> {
    if len < width * height * 3 {
        "Image data too small for dimensions and color_type: "@ + text::decimal(len) + " need at least "@
            + text::decimal((width * height * 3) as nat)
    } else {
        "Image dimensions must be non zero: "@ + text::decimal(width as nat) + "x"@ + text::decimal(height as nat)
    }
}

/// Where `bytes` are what the encoder writes for an image, the decoder returned
/// an image with the same dimensions if they are within its limit, and refused
/// the bytes if they are not.
pub open spec fn gives_back(bytes: Seq<u8>, r: Result<(Vec<u8>, Option<(u16, u16)>), String>) -> bool {
    forall|rgb: Seq<u8>, w: u16, h: u16, quality: u8|
        bytes == #[trigger] jpeg_encoding(rgb, w, h, quality) && encodable(rgb.len(), w, h) ==> if w <= MAX_SIDE && h
            <= MAX_SIDE {
            r matches Ok(image) && image.1 == Some((w, h)) && image.0@.len() == w * h * 3
        } else {
            r is Err
        }
}

/// Calls `jpeg_encoder::Encoder::new` on an empty vector and
/// `jpeg_encoder::Encoder::encode` with `ColorType::Rgb`.
///
/// The encoder refuses pixels that are fewer than the dimensions ask for, and
/// then dimensions of zero; each with its own text. It encodes every other
/// image, to bytes that depend on the pixels, the dimensions and the quality
/// alone and that begin with the marker of a JPEG image. They are an image that the
/// decoder can be handed: baseline, with three components, of which the first is
/// sampled once or twice in each direction and the others once, with the tables
/// that the one scan names and with every block of it. The coefficients of a block
/// come from 64 samples of eight bits, and a rounded coefficient is at most twice
/// the exact one, so that their sum is at most 2 * 8 * 8 * 128, but for the
/// rounding of the transform. It multiplies the dimensions in `usize`.
#[verifier::external_body]
fn encode(rgb: &[u8], width: u16, height: u16, quality: u8) -> (r: Result<Vec<u8>, String>)
    requires
        width * height * 3 <= usize::MAX,
    ensures
        r is Ok <==> encodable(rgb@.len(), width, height),
        r matches Ok(bytes) ==> bytes@ == jpeg_encoding(rgb@, width, height, quality),
        r matches Ok(bytes) ==> bytes@.len() >= 2 && bytes@[0] == 0xFF && bytes@[1] == 0xD8,
        r matches Ok(bytes) ==> decodable(bytes@),
        r matches Err(e) ==> e@ == refusal(rgb@.len(), width, height),
{
    let mut out = Vec::new();
    let encoder = jpeg_encoder::Encoder::new(&mut out, quality);
    let result = encoder.encode(rgb, width, height, jpeg_encoder::ColorType::Rgb);
    result.map(|()| out).map_err(|e| format!("{e}"))
}

/// Calls `zune_jpeg::JpegDecoder::new`, `decode` and `info`.
///
/// What comes back depends on the bytes alone. Where the decoder gives pixels it
/// also gives dimensions, between one and its limit, and the pixels are three
/// bytes each, or one byte each of an image with a single component. It gives an
/// image of three components back for what the encoder wrote, with the dimensions
/// that the encoder was given, and refuses it where a side is above its limit.
///
/// It is not called on bytes on which it may panic: see [`decodable`].
#[verifier::external_body]
fn decode(bytes: &[u8]) -> (r: Result<(Vec<u8>, Option<(u16, u16)>), String>)
    requires
        decodable(bytes@),
    ensures
        outcome(r) == jpeg_decoding(bytes@),
        r matches Ok(image) ==> (image.1 matches Some((w, h)) && 0 < w <= MAX_SIDE && 0 < h <= MAX_SIDE && (
        image.0@.len() == w * h * 3 || image.0@.len() == w * h)),
        gives_back(bytes@, r),
{
    let mut decoder = zune_jpeg::JpegDecoder::new(bytes);
    let rgb = decoder.decode().map_err(|e| format!("{e:?}"))?;
    Ok((rgb, decoder.info().map(|info| (info.width, info.height))))
}

/// What the encoder returned, as the result of encoding a frame.
pub fn encoded(result: Result<Vec<u8>, String>) -> (r: Result<Vec<u8>, CodecError>)
    ensures
        result matches Ok(bytes) ==> r == Ok::<Vec<u8>, CodecError>(bytes),
        result matches Err(e) ==> r == Err::<Vec<u8>, CodecError>(CodecError::Encode(e)),
{
    match result {
        Ok(bytes) => Ok(bytes),
        Err(e) => Err(CodecError::Encode(e)),
    }
}

/// The pixels that the decoder returned, three bytes each: those of an image with
/// a single component are gray, and each byte counts three times.
pub open spec fn as_rgb(pixels: Seq<u8>, w: u16, h: u16) -> Seq<u8> {
    if pixels.len() == w * h {
        Seq::new(3 * pixels.len(), |i: int| pixels[i / 3])
    } else {
        pixels
    }
}

/// Whether a frame shows the decoder's pixels in their places: where they are three
/// bytes each, the frame's bytes are those bytes; where they are one byte each,
/// pixel `(x, y)` of the frame is gray, by the byte in column `x` of row `y`.
pub open spec fn in_place(pixels: Seq<u8>, w: u16, h: u16, f: &Frame) -> bool {
    &&& pixels.len() == 3 * (w * h) ==> f.rgb@ == pixels
    &&& pixels.len() == w * h ==> forall|x: int, y: int|
        0 <= x < w && 0 <= y < h ==> {
            let v = pixels[y * w + x];
            #[trigger] f.pixel(x, y) == (v, v, v)
        }
}

/// The decoder's pixels keep their places: three bytes for each are taken as they
/// are, in their order, and one byte for each makes three that are the same.
pub proof fn pixels_keep_their_places(pixels: Seq<u8>, w: u16, h: u16)
    ensures
        pixels.len() == 3 * (w * h) ==> as_rgb(pixels, w, h) == pixels,
        pixels.len() == w * h ==> as_rgb(pixels, w, h).len() == 3 * pixels.len() && forall|i: int|
            0 <= i < pixels.len() ==> {
                let rgb = as_rgb(pixels, w, h);
                rgb[3 * i] == #[trigger] pixels[i] && rgb[3 * i + 1] == pixels[i] && rgb[3 * i + 2] == pixels[i]
            },
{
    assert(0 <= w * h) by (nonlinear_arith)
        requires
            0 <= w,
            0 <= h,
    ;
    if pixels.len() == 3 * (w * h) {
        assert(as_rgb(pixels, w, h) =~= pixels);
    }
}

/// A frame of the decoder's pixels shows them in their places.
proof fn lemma_in_place(pixels: Seq<u8>, w: u16, h: u16, f: &Frame)
    requires
        f.width == w,
        f.height == h,
        f.rgb@ == as_rgb(pixels, w, h),
    ensures
        in_place(pixels, w, h, f),
{
    pixels_keep_their_places(pixels, w, h);
    if pixels.len() == w * h {
        assert forall|x: int, y: int| 0 <= x < w && 0 <= y < h implies {
            let v = pixels[y * w + x];
            #[trigger] f.pixel(x, y) == (v, v, v)
        } by {
            let i = y * w + x;
            assert(0 <= i < w * h) by (nonlinear_arith)
                requires
                    i == y * w + x,
                    0 <= x < w,
                    0 <= y < h,
            ;
            assert(pixels[i] == pixels[i]);
            assert(video::offset(w as int, x, y) == 3 * i);
        }
    }
}

/// Each byte three times.
fn tripled(pixels: &Vec<u8>) -> (r: Vec<u8>)
    ensures
        r@ == Seq::new(3 * pixels@.len(), |i: int| pixels@[i / 3]),
{
    let mut r: Vec<u8> = Vec::new();
    let mut i: usize = 0;
    while i < pixels.len()
        invariant
            i <= pixels@.len(),
            r@ == Seq::new((3 * i) as nat, |k: int| pixels@[k / 3]),
        decreases pixels@.len() - i,
    {
        let v: u8 = pixels[i];
        r.push(v);
        r.push(v);
        r.push(v);
        i = i + 1;
        assert(r@ =~= Seq::new((3 * i) as nat, |k: int| pixels@[k / 3]));
    }
    r
}

/// What the decoder returned, as an RGB frame.
pub fn decoded(result: Result<(Vec<u8>, Option<(u16, u16)>), String>) -> (r: Result<Frame, CodecError>)
    ensures
        result matches Ok((pixels, Some((w, h)))) ==> (r matches Ok(f) && f.width == w && f.height == h && f.rgb@
            == as_rgb(pixels@, w, h)),
        result matches Ok((pixels, Some((w, h)))) ==> (r matches Ok(f) && in_place(pixels@, w, h, &f)),
        result matches Ok((pixels, None)) ==> r == Err::<Frame, CodecError>(CodecError::NoInfo),
        result matches Err(e) ==> r == Err::<Frame, CodecError>(CodecError::Decode(e)),
{
    match result {
        Ok((pixels, Some((w, h)))) => {
            assert(w * h <= 0xffff * 0xffff) by (nonlinear_arith)
                requires
                    w <= 0xffff,
                    h <= 0xffff,
            ;
            let ghost seen = pixels@;
            let rgb: Vec<u8> = if pixels.len() as u64 == w as u64 * h as u64 { tripled(&pixels) } else { pixels };
            let f = Frame { width: w as usize, height: h as usize, rgb };
            proof {
                lemma_in_place(seen, w, h, &f);
            }
            Ok(f)
        },
        Ok((_, None)) => Err(CodecError::NoInfo),
        Err(e) => Err(CodecError::Decode(e)),
    }
}

/// A side of a frame as the encoder takes it: the lowest 16 bits.
pub open spec fn side(n: usize) -> u16 {
    (n % 65536) as u16
}

/// The lowest 16 bits of a length.
fn low16(n: usize) -> (r: u16)
    ensures
        r == side(n),
{
    assert(n as u16 == n % 65536) by (bit_vector);
    #[verifier::truncate]
    (n as u16)
}

/// Encodes an RGB frame to JPEG bytes. The encoder sees the lowest 16 bits of
/// the width and of the height.
pub fn encode_jpeg(frame: &Frame, quality: u8) -> (r: Result<Vec<u8>, CodecError>)
    requires
        side(frame.width) * side(frame.height) * 3 <= usize::MAX,
    ensures
        r is Ok <==> encodable(frame.rgb@.len(), side(frame.width), side(frame.height)),
        r matches Ok(bytes) ==> bytes@ == jpeg_encoding(
            frame.rgb@,
            side(frame.width),
            side(frame.height),
            quality,
        ),
        r matches Ok(bytes) ==> bytes@.len() >= 2 && bytes@[0] == 0xFF && bytes@[1] == 0xD8,
        r matches Ok(bytes) ==> decodable(bytes@),
        r matches Err(e) ==> (e matches CodecError::Encode(s) && s@ == refusal(
            frame.rgb@.len(),
            side(frame.width),
            side(frame.height),
        )),
{
    encoded(encode(frame.rgb.as_slice(), low16(frame.width), low16(frame.height), quality))
}

/// Decodes JPEG bytes into an RGB [`Frame`].
///
/// What was encoded comes back with its dimensions, or is refused where a side is
/// above the decoder's limit.
pub fn decode_jpeg(bytes: &[u8]) -> (r: Result<Frame, CodecError>)
    requires
        decodable(bytes@),
    ensures
        (match jpeg_decoding(bytes@) {
            Ok((pixels, Some((w, h)))) => (r matches Ok(f) && f.width == w && f.height == h && f.rgb@ == as_rgb(
                pixels,
                w,
                h,
            )),
            Ok((pixels, None)) => r == Err::<Frame, CodecError>(CodecError::NoInfo),
            Err(e) => (r matches Err(CodecError::Decode(s)) && s@ == e),
        }),
        jpeg_decoding(bytes@) matches Ok((pixels, Some((w, h)))) ==> (r matches Ok(f) && in_place(pixels, w, h, &f)),
        r matches Err(e) ==> e is Decode,
        r matches Ok(f) ==> 0 < f.width <= MAX_SIDE && 0 < f.height <= MAX_SIDE && f.wf(),
        forall|rgb: Seq<u8>, w: u16, h: u16, quality: u8|
            bytes@ == #[trigger] jpeg_encoding(rgb, w, h, quality) && encodable(rgb.len(), w, h) ==> if w <= MAX_SIDE
                && h <= MAX_SIDE {
                r matches Ok(f) && f.width == w && f.height == h && f.wf()
            } else {
                r is Err
            },
{
    decoded(decode(bytes))
}

/// The encoder sees sides below 65536 as they are, and longer ones less a multiple
/// of that.
pub proof fn short_sides_are_seen_as_they_are(n: usize)
    ensures
        n < 65536 ==> side(n) == n,
        side(n) <= n,
        (n - side(n)) % 65536 == 0,
{
}

/// An error names what failed, and gives the reason as it came.
pub proof fn errors_give_the_reason(e: CodecError)
    ensures
        e matches CodecError::Encode(m) ==> e.text().take(20) == "jpeg encode failed: "@ && e.text().skip(20) == m@,
        e matches CodecError::Decode(m) ==> e.text().take(20) == "jpeg decode failed: "@ && e.text().skip(20) == m@,
{
    reveal_strlit("jpeg encode failed: ");
    reveal_strlit("jpeg decode failed: ");
    match e {
        CodecError::Encode(m) => {
            assert(e.text().take(20) =~= "jpeg encode failed: "@);
            assert(e.text().skip(20) =~= m@);
        },
        CodecError::Decode(m) => {
            assert(e.text().take(20) =~= "jpeg decode failed: "@);
            assert(e.text().skip(20) =~= m@);
        },
        CodecError::NoInfo => {},
    }
}

/// Every image with an area and with all of its bytes can be encoded, and no other.
pub proof fn whole_images_can_be_encoded(len: nat, width: u16, height: u16)
    ensures
        encodable(len, width, height) <==> width >= 1 && height >= 1 && len >= 3 * (width * height),
{
}

} // verus!
