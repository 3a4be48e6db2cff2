//! The browser gateway: a stream's frames as the parts of a live multipart answer.
//!
//! The stream already is Motion-JPEG, so each frame is passed on as it came.

use crate::text;
use vstd::prelude::*;

verus! {

/// The content type of the answer. Each part replaces the one before it.
pub const CONTENT_TYPE: &'static str = "multipart/x-mixed-replace; boundary=frame";

/// What precedes the length of a part.
pub const PART_START: &'static str = "--frame\r\nContent-Type: image/jpeg\r\nContent-Length: ";

/// The head of a part with a frame of `len` bytes.
pub open spec fn part_head(len: nat) -> Seq<char> {
    PART_START@ + text::decimal(len) + "\r\n\r\n"@
}

/// A part of the answer: the head, the frame and a line end.
pub open spec fn part_bytes(jpeg: Seq<u8>) -> Seq<u8> {
    text::ascii(part_head(jpeg.len())) + jpeg + text::ascii("\r\n"@)
}

/// The part of the answer that shows a frame.
pub fn part(jpeg: &[u8]) -> (out: Vec<u8>)
    ensures
        out@ == part_bytes(jpeg@),
{
    let mut head = PART_START.to_owned();
    text::push_decimal(&mut head, jpeg.len() as u128);
    head.append("\r\n\r\n");
    let mut out: Vec<u8> = Vec::new();
    text::push_ascii(&mut out, head.as_str());
    out.extend_from_slice(jpeg);
    text::push_ascii(&mut out, "\r\n");
    assert(out@ =~= part_bytes(jpeg@));
    out
}

/// A frame is passed on as it came: it stands in its part behind the head, as long
/// as the head says.
pub proof fn frames_are_passed_on(jpeg: Seq<u8>)
    ensures
        ({
            let head = part_head(jpeg.len());
            let part = part_bytes(jpeg);
            &&& part.subrange(0, head.len() as int) == text::ascii(head)
            &&& part.subrange(head.len() as int, head.len() as int + jpeg.len()) == jpeg
        }),
{
    let head = part_head(jpeg.len());
    let part = part_bytes(jpeg);
    assert(part.subrange(0, head.len() as int) =~= text::ascii(head));
    assert(part.subrange(head.len() as int, head.len() as int + jpeg.len()) =~= jpeg);
}

/// A part is what a browser reads: the boundary, the type, the length in decimal, an
/// empty line, as many bytes as the length says, and a line end.
pub proof fn parts_read_back(jpeg: Seq<u8>)
    ensures
        ({
            let part = part_bytes(jpeg);
            let lead = text::ascii("--frame\r\nContent-Type: image/jpeg\r\nContent-Length: "@);
            let digits = text::decimal(jpeg.len());
            let (a, b) = (lead.len() as int, lead.len() + digits.len() as int);
            let n = part.len() as int;
            &&& n == b + 4 + jpeg.len() + 2
            &&& part.take(a) == lead
            &&& part.subrange(a, b) == text::ascii(digits)
            &&& text::laws::value(digits) == jpeg.len()
            &&& text::laws::all_digits(digits)
            &&& part.subrange(b, b + 4) == seq![13u8, 10, 13, 10]
            &&& part.subrange(b + 4, n - 2) == jpeg
            &&& part.skip(n - 2) == seq![13u8, 10]
        }),
{
    reveal_strlit("--frame\r\nContent-Type: image/jpeg\r\nContent-Length: ");
    reveal_strlit("\r\n\r\n");
    reveal_strlit("\r\n");
    let part = part_bytes(jpeg);
    let lead = text::ascii(PART_START@);
    let digits = text::decimal(jpeg.len());
    let (a, b) = (lead.len() as int, lead.len() + digits.len() as int);
    let n = part.len() as int;
    text::laws::decimal_reads_back(jpeg.len());
    assert(part.take(a) =~= lead);
    assert(part.subrange(a, b) =~= text::ascii(digits));
    assert(text::ascii("\r\n\r\n"@) =~= seq![13u8, 10, 13, 10]);
    assert(text::ascii("\r\n"@) =~= seq![13u8, 10]);
    assert(part.subrange(b, b + 4) =~= seq![13u8, 10, 13, 10]);
    assert(part.subrange(b + 4, n - 2) =~= jpeg);
    assert(part.skip(n - 2) =~= seq![13u8, 10]);
}

} // verus!
