//! What holds of every image that the decoder is handed.

use crate::jpeg;
use crate::jpeg::bits;
use crate::jpeg::header;
use crate::jpeg::scan;
use crate::jpeg::scan::Part;
use vstd::prelude::*;

verus! {

/// Bytes that do not start as an image can be handed to the decoder: it refuses
/// them.
pub proof fn other_bytes_can_be_handed_over(b: Seq<u8>)
    requires
        b.len() <= bits::MAX_LEN,
        b.len() < 2 || b[0] != 0xFF || b[1] != 0xD8,
    ensures
        jpeg::decodable(b),
{
}

/// A code ends behind its start and within the data.
proof fn lemma_symbol(b: Seq<u8>, t: int, s: Seq<u8>, at: int, len: int, gap: int, index: int)
    ensures
        bits::symbol(b, t, s, at, len, gap, index) matches Some((v, end)) ==> at < end <= 8 * s.len(),
    decreases 17 - len,
{
    if len <= 16 && at < 8 * s.len() && t + len < b.len() {
        let d = 2 * gap + bits::bit(s, at);
        let n = b[t + len] as int;
        lemma_symbol(b, t, s, at + 1, len + 1, d - n, index + n);
    }
}

/// The coefficients of a block end within the data.
proof fn lemma_coefficients(b: Seq<u8>, s: Seq<u8>, p: Part, at: int, k: int, sum: int)
    requires
        at <= 8 * s.len(),
    ensures
        scan::coefficients_end(b, s, p, at, k, sum) matches Some(end) ==> at <= end <= 8 * s.len(),
    decreases 80 - k,
{
    if k < 64 {
        lemma_symbol(b, p.ac as int, s, at, 1, 0, 0);
        if let Some((rs, end)) = bits::symbol_at(b, p.ac as int, s, at) {
            let place = k + rs as int / 16;
            let n = (rs as int % 16) as nat;
            if n == 0 {
                lemma_coefficients(b, s, p, end, k + 16, sum);
            } else if place <= 63 {
                if let Some(v) = bits::amplitude(s, end, n) {
                    let next = sum + scan::size(v) * header::quantum(b, p.quantizer as int, place);
                    lemma_coefficients(b, s, p, end + n, place + 1, next);
                }
            }
        }
    }
}

/// A block that is taken is complete, and its first coefficient is small: no bit of
/// it lies behind the data, and the coefficient times its quantizer is at most
/// 25,000 in size, far from the limits of 32 bits.
pub proof fn blocks_are_complete_and_small(b: Seq<u8>, s: Seq<u8>, p: Part, at: int, prediction: i32)
    ensures
        scan::block_end(b, s, p, at, prediction) matches Some((end, dc)) ==> {
            &&& at < end <= 8 * s.len()
            &&& -32767 <= dc <= 32767
            &&& -25_000 <= dc * header::quantum(b, p.quantizer as int, 0) <= 25_000
        },
{
    lemma_symbol(b, p.dc as int, s, at, 1, 0, 0);
    if let Some((n, end)) = bits::symbol_at(b, p.dc as int, s, at) {
        if n <= 15 {
            if let Some(v) = bits::amplitude(s, end, n as nat) {
                let dc = prediction + v;
                let q = header::quantum(b, p.quantizer as int, 0);
                let sum = scan::size(dc) * q;
                lemma_coefficients(b, s, p, end + n, 1, sum);
                assert(scan::size(dc) * q == dc * q || scan::size(dc) * q == -(dc * q)) by (nonlinear_arith)
                    requires
                        scan::size(dc) == dc || scan::size(dc) == -dc,
                ;
                assert(scan::size(dc) * q >= 0) by (nonlinear_arith)
                    requires
                        scan::size(dc) >= 0,
                        q >= 0,
                ;
            }
        }
    }
}

/// A unit that is taken is complete.
pub proof fn units_are_complete(b: Seq<u8>, s: Seq<u8>, ps: Seq<Part>, at: int, dcs: Seq<i32>, t: int, i: int)
    requires
        at <= 8 * s.len(),
    ensures
        scan::unit_end(b, s, ps, at, dcs, t, i) matches Some((end, next)) ==> at <= end <= 8 * s.len(),
    decreases ps.len() - t, (if t < ps.len() { ps[t].count - i } else { 0 }),
{
    if t < ps.len() {
        if i >= ps[t].count {
            units_are_complete(b, s, ps, at, dcs, t + 1, 0);
        } else {
            blocks_are_complete_and_small(b, s, ps[t], at, dcs[ps[t].k as int]);
            if let Some((e, dc)) = scan::block_end(b, s, ps[t], at, dcs[ps[t].k as int]) {
                units_are_complete(b, s, ps, e, dcs.update(ps[t].k as int, dc), t, i + 1);
            }
        }
    }
}

/// The data of a scan hold no marker: they end where a byte 0xFF is not followed by
/// a zero, and every such byte before is followed by one.
pub proof fn data_hold_no_marker(b: Seq<u8>, p: int, i: int)
    requires
        0 <= p <= i < bits::data_end(b, p),
    ensures
        bits::data_end(b, p) <= b.len(),
        b[i] == 0xFF ==> i + 1 < b.len() && b[i + 1] == 0,
        bits::data_end(b, p) < b.len() ==> b[bits::data_end(b, p)] == 0xFF,
    decreases i - p,
{
    bits::lemma_data_end(b, if p <= b.len() { p } else { b.len() as int });
    if p < i {
        data_hold_no_marker(b, p + 1, i);
    } else if p < b.len() {
        lemma_ends_at_marker(b, p);
    }
}

proof fn lemma_ends_at_marker(b: Seq<u8>, p: int)
    requires
        0 <= p <= b.len(),
    ensures
        bits::data_end(b, p) < b.len() ==> b[bits::data_end(b, p)] == 0xFF,
    decreases b.len() - p,
{
    if p < b.len() {
        lemma_ends_at_marker(b, p + 1);
    }
}

} // verus!
