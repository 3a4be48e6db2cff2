//! Which JPEG images the decoder can be handed.
//!
//! The decoder reports an error on most bytes that are no image. It panics on
//! images with some unusual headers, and, where it is compiled with debug
//! assertions or overflow checks, on corrupt entropy-coded data. So an image is
//! read here as the decoder reads it: `header` follows the segments, `bits` and
//! `scan` the data of sequential images, and `progressive` those of progressive
//! ones.

pub mod bits;
pub mod header;
pub mod laws;
pub mod progressive;
pub mod scan;

pub use crate::jpeg::header::MAX_SIDE;

use crate::jpeg::bits::data_end;
use crate::jpeg::bits::MAX_LEN;
use crate::jpeg::header::frame_at;
use crate::jpeg::header::next_marker;
use crate::jpeg::header::number;
use crate::jpeg::header::quantum;
use crate::jpeg::header::sampling;
use crate::jpeg::header::HeaderState;
use crate::jpeg::header::Headers;
use crate::jpeg::scan::components;
use crate::jpeg::scan::scan_at;
use crate::jpeg::scan::scan_data;
use crate::jpeg::scan::scan_parts;
use crate::jpeg::scan::Part;
use crate::jpeg::scan::MAX_SUM;
use vstd::prelude::*;

verus! {

/// Whether the decoder can undo sampling factors, beside those of the first
/// component: they are the same, or one each; or, where those of the first are two
/// each, one and two.
pub open spec fn undoable(s: u8, first: u8) -> bool {
    s == first || s == 0x11 || first == 0x22 && (s == 0x12 || s == 0x21)
}

/// Whether the components in the frame header at `f` are sampled in a way that
/// the decoder can undo. Where the first one is sampled more than twice across,
/// the image has to be at least 16 pixels wide.
pub open spec fn sampled_evenly(b: Seq<u8>, f: int) -> bool {
    &&& forall|k: int| 0 <= k < components(b, f) ==> undoable(#[trigger] sampling(b, f, k), sampling(b, f, 0))
    &&& sampling(b, f, 0) / 16 <= 2 || number(b, f + 7) >= 16
}

/// Whether the image is progressive.
pub open spec fn is_progressive(b: Seq<u8>, hd: Headers) -> bool {
    b[hd.frame + 1] == 0xC2
}

/// Whether the decoder can lay out the frame. An Adobe segment after the frame
/// header can give the image more or fewer colors than the frame has components.
pub open spec fn layable(b: Seq<u8>, hd: Headers) -> bool {
    let n = components(b, hd.frame);
    &&& n == 1 ==> !hd.late_adobe
    &&& n >= 3 ==> sampled_evenly(b, hd.frame)
    &&& n == 4 && is_progressive(b, hd) ==> !hd.late_adobe
}

/// The quantization table of component `k`.
pub open spec fn quantizer_of(b: Seq<u8>, hd: Headers, k: int) -> usize {
    hd.quantizers[header::quantizer(b, hd.frame, k) as int]
}

/// Whether every component has a quantization table.
pub open spec fn has_quantizers(b: Seq<u8>, hd: Headers) -> bool {
    forall|k: int| 0 <= k < components(b, hd.frame) ==> #[trigger] quantizer_of(b, hd, k) != 0
}

/// Whether every component of a scan has its tables and is in no scan before.
pub open spec fn ready(ps: Seq<Part>, seen: Seq<bool>) -> bool {
    forall|i: int| 0 <= i < ps.len() ==> scan::has_tables(#[trigger] ps[i]) && !seen[ps[i].k as int]
}

/// The components that are in a scan, once those of the first `n` parts are.
pub open spec fn marked(seen: Seq<bool>, ps: Seq<Part>, n: int) -> Seq<bool>
    decreases n,
{
    if n <= 0 {
        seen
    } else {
        marked(seen, ps, n - 1).update(ps[n - 1].k as int, true)
    }
}

/// Whether the sequential scans from `j` on are complete: each has its tables and
/// all of its blocks. Where the first scan does not hold all components, the others
/// follow, each once. A restart is due after `left` units.
pub open spec fn sequential(b: Seq<u8>, hd: Headers, j: int, seen: Seq<bool>, left: int) -> bool
    decreases b.len() - j,
{
    if !scan_at(b, j) {
        true
    } else {
        match scan_parts(b, hd, j, b[j + 4] as int) {
            None => true,
            Some(ps) => ready(ps, seen) && match scan::units_end(
                b,
                ps,
                hd.interval,
                scan_data(b, j),
                0,
                scan::no_predictions(),
                left,
                scan::columns(b, hd.frame) * scan::rows(b, hd.frame),
            ) {
                None => false,
                Some((start, rest)) => if ps.len() == components(b, hd.frame) {
                    true
                } else {
                    match next_marker(b, data_end(b, start)) {
                        Some(p) => p < b.len() && b[p] == 0xDA && p - 1 > j ==> sequential(
                            b,
                            hd,
                            p - 1,
                            marked(seen, ps, ps.len() as int),
                            rest,
                        ),
                        None => true,
                    }
                },
            },
        }
    }
}

/// What a progressive scan does with the coefficients: the band from `ss` to `se`,
/// whether it was there before, and by how many bits it is short.
pub open spec fn band_start(b: Seq<u8>, j: int) -> int {
    b[j + 5 + 2 * b[j + 4]] as int
}

pub open spec fn band_end(b: Seq<u8>, j: int) -> int {
    b[j + 6 + 2 * b[j + 4]] as int
}

pub open spec fn bits_before(b: Seq<u8>, j: int) -> int {
    b[j + 7 + 2 * b[j + 4]] as int / 16
}

pub open spec fn bits_short(b: Seq<u8>, j: int) -> int {
    b[j + 7 + 2 * b[j + 4]] as int % 16
}

/// Whether the decoder refuses the progressive scan with the header at `j` for its
/// band.
pub open spec fn band_refused(b: Seq<u8>, j: int) -> bool {
    ||| band_start(b, j) > 63
    ||| band_end(b, j) > 63
    ||| bits_before(b, j) > 13
    ||| bits_short(b, j) > 13
    ||| band_end(b, j) != 0 && (b[j + 4] > 1 || band_start(b, j) == 0)
}

/// A part whose units are blocks.
pub open spec fn alone(p: Part) -> Part {
    Part { count: 1, across: 1, ..p }
}

/// The columns and rows of units in a scan: blocks of the image in a scan of the
/// first component alone.
pub open spec fn scan_columns(b: Seq<u8>, f: int, ps: Seq<Part>) -> int {
    if ps.len() == 1 && ps[0].k == 0 {
        scan::parts(number(b, f + 7), 8)
    } else {
        scan::columns(b, f)
    }
}

pub open spec fn scan_rows(b: Seq<u8>, f: int, ps: Seq<Part>) -> int {
    if ps.len() == 1 && ps[0].k == 0 {
        scan::parts(number(b, f + 5), 8)
    } else {
        scan::rows(b, f)
    }
}

/// The coefficients after the progressive scan with the header at `j`, and where
/// its last data start, if it has its tables and is complete.
pub open spec fn scanned(b: Seq<u8>, hd: Headers, j: int, ps: Seq<Part>, cs: Seq<i16>) -> Option<(Seq<i16>, int)> {
    let columns = scan_columns(b, hd.frame, ps);
    let n = columns * scan_rows(b, hd.frame, ps);
    let refine = bits_before(b, j) != 0;
    let al = bits_short(b, j) as nat;
    if band_start(b, j) == 0 {
        if exists|i: int| 0 <= i < ps.len() && (#[trigger] ps[i]).dc == 0 {
            None
        } else {
            progressive::first_scan(
                b,
                if ps.len() == 1 { seq![alone(ps[0])] } else { ps },
                refine,
                al,
                columns,
                hd.interval,
                cs,
                scan_data(b, j),
                0,
                scan::no_predictions(),
                hd.interval,
                0,
                n,
            )
        }
    } else if ps.len() != 1 || ps[0].ac == 0 || band_start(b, j) > band_end(b, j) {
        None
    } else {
        progressive::band_scan(
            b,
            alone(ps[0]),
            band_start(b, j),
            band_end(b, j),
            refine,
            al,
            columns,
            hd.interval,
            cs,
            scan_data(b, j),
            0,
            0,
            hd.interval,
            0,
            n,
        )
    }
}

/// The sum of the first `n` coefficients from `x` on, each times its quantizer and
/// without its sign.
pub open spec fn block_sum(b: Seq<u8>, q: int, cs: Seq<i16>, x: int, n: int) -> int
    decreases n,
{
    if n <= 0 {
        0
    } else {
        block_sum(b, q, cs, x, n - 1) + scan::size(cs[x + n - 1] as int) * quantum(b, q, n - 1)
    }
}

/// Whether the decoder can transform block `i` of component `k`.
pub open spec fn transformable(b: Seq<u8>, hd: Headers, cs: Seq<i16>, k: int, i: int) -> bool {
    let x = scan::base(b, hd.frame, k) + 64 * i;
    progressive::block_lies(cs, x) && block_sum(b, quantizer_of(b, hd, k) as int, cs, x, 64) <= MAX_SUM
}

/// Whether the decoder can transform every block.
pub open spec fn all_transformable(b: Seq<u8>, hd: Headers, cs: Seq<i16>) -> bool {
    forall|k: int, i: int|
        0 <= k < components(b, hd.frame) && 0 <= i < scan::blocks(b, hd.frame, k) ==> #[trigger] transformable(
            b,
            hd,
            cs,
            k,
            i,
        )
}

/// Whether the decoder knows what a marker stands for.
pub open spec fn known(m: u8) -> bool {
    ||| 0xC0 <= m <= 0xC2
    ||| m == 0xC4
    ||| m == 0xCC
    ||| 0xD0 <= m <= 0xDD
    ||| 0xE0 <= m <= 0xE2
    ||| m == 0xED
    ||| m == 0xFE
}

/// The most scans of a progressive image.
pub const MAX_SCANS: u64 = 100;

/// Whether the progressive scans from `pos` on are complete, with what stands
/// between them, and the decoder can transform what they leave. `first` are the
/// headers of the first scan, and `n` scans came before.
pub open spec fn progressed(b: Seq<u8>, first: Headers, hd: Headers, pos: int, cs: Seq<i16>, n: int) -> bool
    decreases b.len() - pos,
{
    match next_marker(b, pos) {
        None => true,
        Some(p) => if p <= pos || p >= b.len() {
            true
        } else if b[p] == 0xD9 {
            all_transformable(b, first, cs)
        } else if b[p] == 0xDA {
            if !scan_at(b, p - 1) || band_refused(b, p - 1) {
                true
            } else {
                match scan_parts(b, hd, p - 1, b[p + 3] as int) {
                    None => true,
                    Some(ps) => n < MAX_SCANS && match scanned(b, hd, p - 1, ps, cs) {
                        None => false,
                        Some((after, start)) => pos < data_end(b, start) <= b.len() && progressed(
                            b,
                            first,
                            hd,
                            data_end(b, start),
                            after,
                            n + 1,
                        ),
                    },
                }
            }
        } else if 0xD0 <= b[p] <= 0xD7 {
            progressed(b, first, hd, p + 1, cs, n)
        } else if !known(b[p]) {
            false
        } else {
            match header::segment(b, p, hd) {
                None => true,
                Some((next, end)) => pos < end <= b.len() && progressed(b, first, next, end, cs, n),
            }
        },
    }
}

/// No coefficients but zeros.
pub open spec fn no_coefficients(b: Seq<u8>, f: int) -> Seq<i16> {
    Seq::new(scan::base(b, f, components(b, f)) as nat, |i: int| 0i16)
}

/// Whether the decoder returns on an image with these headers and the first scan
/// at `j`.
pub open spec fn image_decodable(b: Seq<u8>, hd: Headers, j: int) -> bool {
    if hd.frame == 0 || !scan_at(b, j) || !has_quantizers(b, hd) {
        true
    } else if components(b, hd.frame) == 2 {
        !hd.adobe
    } else {
        layable(b, hd) && if is_progressive(b, hd) {
            2 * scan::base(b, hd.frame, components(b, hd.frame)) <= isize::MAX && progressed(
                b,
                hd,
                hd,
                j,
                no_coefficients(b, hd.frame),
                0,
            )
        } else {
            sequential(b, hd, j, seq![false, false, false, false], hd.interval)
        }
    }
}

/// Whether the decoder returns on these bytes, with an image or with an error:
/// their headers are refused, or the image is one that it can lay out, with
/// complete data and with coefficients that it can transform.
///
/// Left out are images with corrupt or missing data, also where the decoder would
/// report an error or fill in; with sampling factors that it cannot undo; with an
/// Adobe segment between the frame header and the data that does not suit the
/// components; and without Huffman tables of their own.
pub open spec fn decodable(b: Seq<u8>) -> bool {
    b.len() <= MAX_LEN && (b.len() >= 2 && b[0] == 0xFF && b[1] == 0xD8 ==> match header::headers(
        b,
        2,
        header::no_headers(),
    ) {
        None => true,
        Some((hd, j)) => image_decodable(b, hd, j),
    })
}

/// Whether the components are sampled in a way that the decoder can undo.
fn is_sampled_evenly(b: &[u8], f: usize) -> (r: bool)
    requires
        frame_at(b@, f as int),
    ensures
        r == sampled_evenly(b@, f as int),
{
    assert(b.len() <= usize::MAX);
    let n: usize = b[f + 9] as usize;
    let first: u8 = b[f + 11];
    assert(first == sampling(b@, f as int, 0));
    let mut k: usize = 0;
    while k < n
        invariant
            k <= n,
            b@.len() <= usize::MAX,
            n == components(b@, f as int),
            frame_at(b@, f as int),
            first == sampling(b@, f as int, 0),
            forall|c: int|
                0 <= c < k ==> undoable(#[trigger] sampling(b@, f as int, c), first),
        decreases n - k,
    {
        let s: u8 = b[f + 11 + 3 * k];
        assert(s == sampling(b@, f as int, k as int));
        if s != first && s != 0x11 && !(first == 0x22 && (s == 0x12 || s == 0x21)) {
            return false;
        }
        k = k + 1;
    }
    first / 16 <= 2 || header::number_at(b, f + 7) >= 16
}

/// The quantization table of component `k`.
fn get_quantizer(b: &[u8], hd: &HeaderState, k: usize) -> (r: usize)
    requires
        hd@.wf(b@),
        hd.frame != 0,
        k < components(b@, hd.frame as int),
    ensures
        r == quantizer_of(b@, hd@, k as int),
        r != 0 ==> header::quantizer_fits(b@, r as int),
{
    assert(b.len() <= usize::MAX);
    assert(header::component_fits(b@, hd.frame as int, k as int));
    hd.quantizers[b[hd.frame + 12 + 3 * k] as usize]
}

/// Whether every component has a quantization table.
fn has_all_quantizers(b: &[u8], hd: &HeaderState) -> (r: bool)
    requires
        hd@.wf(b@),
        hd.frame != 0,
    ensures
        r == has_quantizers(b@, hd@),
{
    assert(b.len() <= usize::MAX);
    let n: usize = b[hd.frame + 9] as usize;
    let mut k: usize = 0;
    while k < n
        invariant
            k <= n,
            n == components(b@, hd.frame as int),
            hd@.wf(b@),
            hd.frame != 0,
            forall|c: int| 0 <= c < k ==> #[trigger] quantizer_of(b@, hd@, c) != 0,
        decreases n - k,
    {
        if get_quantizer(b, hd, k) == 0 {
            return false;
        }
        k = k + 1;
    }
    true
}

/// Whether every component of a scan has its tables and is in no scan before.
fn is_ready(ps: &Vec<Part>, seen: &Vec<bool>) -> (r: bool)
    requires
        seen@.len() == 4,
        forall|i: int| 0 <= i < ps@.len() ==> (#[trigger] ps@[i]).k < 4,
    ensures
        r == ready(ps@, seen@),
{
    let mut i: usize = 0;
    while i < ps.len()
        invariant
            i <= ps@.len(),
            seen@.len() == 4,
            forall|c: int| 0 <= c < ps@.len() ==> (#[trigger] ps@[c]).k < 4,
            forall|c: int| 0 <= c < i ==> scan::has_tables(#[trigger] ps@[c]) && !seen@[ps@[c].k as int],
        decreases ps@.len() - i,
    {
        let p: Part = ps[i];
        if p.dc == 0 || p.ac == 0 || seen[p.k] {
            assert(!(scan::has_tables(ps@[i as int]) && !seen@[ps@[i as int].k as int]));
            return false;
        }
        i = i + 1;
    }
    true
}

/// Marks the components of a scan.
fn mark(seen: &mut Vec<bool>, ps: &Vec<Part>)
    requires
        old(seen)@.len() == 4,
        forall|i: int| 0 <= i < ps@.len() ==> (#[trigger] ps@[i]).k < 4,
    ensures
        final(seen)@ == marked(old(seen)@, ps@, ps@.len() as int),
        final(seen)@.len() == 4,
{
    let mut i: usize = 0;
    while i < ps.len()
        invariant
            i <= ps@.len(),
            seen@.len() == 4,
            forall|c: int| 0 <= c < ps@.len() ==> (#[trigger] ps@[c]).k < 4,
            seen@ == marked(old(seen)@, ps@, i as int),
        decreases ps@.len() - i,
    {
        seen.set(ps[i].k, true);
        i = i + 1;
    }
}

/// The parts of a scan have quantization tables where all components have.
proof fn lemma_quantized(b: Seq<u8>, hd: Headers, j: int, n: int)
    requires
        hd.wf(b),
        hd.frame != 0,
        scan_at(b, j),
        has_quantizers(b, hd),
        0 <= n <= b[j + 4],
        scan_parts(b, hd, j, n) is Some,
    ensures
        forall|i: int| 0 <= i < scan_parts(b, hd, j, n)->0.len() ==> (#[trigger] scan_parts(b, hd, j, n)->0[i]).quantizer != 0,
    decreases n,
{
    if n > 0 {
        lemma_quantized(b, hd, j, n - 1);
        let ps = scan_parts(b, hd, j, n - 1)->0;
        lemma_found(b, hd.frame, b[j + 5 + 2 * (n - 1)], 0);
        let k = scan::find(b, hd.frame, b[j + 5 + 2 * (n - 1)], 0)->0;
        assert(quantizer_of(b, hd, k) != 0);
    }
}

/// A component that is found is one of the frame.
proof fn lemma_found(b: Seq<u8>, f: int, id: u8, k: int)
    requires
        0 <= k,
    ensures
        scan::find(b, f, id, k) matches Some(c) ==> k <= c < components(b, f),
    decreases components(b, f) - k,
{
    if k < components(b, f) {
        lemma_found(b, f, id, k + 1);
    }
}

/// Whether the sequential scans are complete.
fn is_sequential(b: &[u8], hd: &HeaderState, first: usize) -> (r: bool)
    requires
        b@.len() <= MAX_LEN,
        hd@.wf(b@),
        hd.frame != 0,
        has_quantizers(b@, hd@),
        first <= b@.len(),
    ensures
        r == sequential(b@, hd@, first as int, seq![false, false, false, false], hd.interval as int),
{
    let mut j: usize = first;
    let mut seen: Vec<bool> = vec![false, false, false, false];
    assert(seen@ =~= seq![false, false, false, false]);
    let mut left: u64 = hd.interval as u64;
    let (columns, rows): (u64, u64) = (scan::get_columns(b, hd.frame), scan::get_rows(b, hd.frame));
    assert(1 <= columns * rows <= 0x40_0000) by (nonlinear_arith)
        requires
            1 <= columns <= 2048,
            1 <= rows <= 2048,
    ;
    let count: u64 = columns * rows;
    loop
        invariant
            first <= j <= b@.len() <= MAX_LEN,
            hd@.wf(b@),
            hd.frame != 0,
            has_quantizers(b@, hd@),
            seen@.len() == 4,
            left <= 0xffff,
            count == scan::columns(b@, hd.frame as int) * scan::rows(b@, hd.frame as int),
            sequential(b@, hd@, first as int, seq![false, false, false, false], hd.interval as int) == sequential(
                b@,
                hd@,
                j as int,
                seen@,
                left as int,
            ),
        decreases b@.len() - j,
    {
        if !scan::is_scan(b, j) {
            return true;
        }
        let ps: Vec<Part> = match scan::read_parts(b, hd, j) {
            Some(ps) => ps,
            None => {
                return true;
            },
        };
        proof {
            lemma_quantized(b@, hd@, j as int, b@[j + 4] as int);
        }
        if !is_ready(&ps, &seen) {
            return false;
        }
        assert(b.len() <= usize::MAX);
        let data: usize = j + 8 + 2 * b[j + 4] as usize;
        match scan::read_units(b, &ps, hd.interval as u64, data, left, count) {
            None => {
                return false;
            },
            Some((start, rest)) => {
                if ps.len() == b[hd.frame + 9] as usize {
                    return true;
                }
                let end: usize = bits::find_end(b, start);
                match header::find_marker(b, end) {
                    None => {
                        return true;
                    },
                    Some(p) => {
                        if b[p] != 0xDA || p - 1 <= j {
                            return true;
                        }
                        mark(&mut seen, &ps);
                        j = p - 1;
                        left = rest;
                    },
                }
            },
        }
    }
}

/// Whether every part of a scan has a table for its first coefficients.
fn has_first_tables(ps: &Vec<Part>) -> (r: bool)
    ensures
        r == !(exists|i: int| 0 <= i < ps@.len() && (#[trigger] ps@[i]).dc == 0),
{
    let mut i: usize = 0;
    while i < ps.len()
        invariant
            i <= ps@.len(),
            forall|c: int| 0 <= c < i ==> (#[trigger] ps@[c]).dc != 0,
        decreases ps@.len() - i,
    {
        if ps[i].dc == 0 {
            return false;
        }
        i = i + 1;
    }
    true
}

/// The columns and rows of units in a scan.
fn scan_size(b: &[u8], f: usize, ps: &Vec<Part>) -> (r: (u64, u64))
    requires
        frame_at(b@, f as int),
    ensures
        r.0 == scan_columns(b@, f as int, ps@),
        r.1 == scan_rows(b@, f as int, ps@),
        1 <= r.0 <= 2048,
        1 <= r.1 <= 2048,
{
    assert(b.len() <= usize::MAX);
    if ps.len() == 1 && ps[0].k == 0 {
        ((header::number_at(b, f + 7) as u64 + 7) / 8, (header::number_at(b, f + 5) as u64 + 7) / 8)
    } else {
        (scan::get_columns(b, f), scan::get_rows(b, f))
    }
}

/// Reads the progressive scan with the header at `j`. Returns where its last data
/// start.
fn read_scan(b: &[u8], hd: &HeaderState, j: usize, ps: &Vec<Part>, cs: &mut Vec<i16>) -> (r: Option<usize>)
    requires
        b@.len() <= MAX_LEN,
        hd@.wf(b@),
        hd.frame != 0,
        scan_at(b@, j as int),
        !band_refused(b@, j as int),
        ps@.len() == b@[j + 4],
        scan::parts_fit(b@, ps@),
    ensures
        (match scanned(b@, hd@, j as int, ps@, old(cs)@) {
            Some((after, start)) => r == Some(start as usize) && scan_data(b@, j as int) <= start <= b@.len()
                && final(cs)@ == after,
            None => r is None,
        }),
{
    assert(b.len() <= usize::MAX);
    let tail: usize = j + 5 + 2 * b[j + 4] as usize;
    let (ss, se): (u8, u8) = (b[tail], b[tail + 1]);
    let refine: bool = b[tail + 2] / 16 != 0;
    let al: u64 = (b[tail + 2] % 16) as u64;
    let data: usize = tail + 3;
    let (columns, rows) = scan_size(b, hd.frame, ps);
    assert(1 <= columns * rows <= 0x40_0000) by (nonlinear_arith)
        requires
            1 <= columns <= 2048,
            1 <= rows <= 2048,
    ;
    let n: u64 = columns * rows;
    let interval: u64 = hd.interval as u64;
    assert(scan::part_fits(b@, ps@[0]));
    let lone = Part { count: 1, across: 1, ..ps[0] };
    if ss == 0 {
        if !has_first_tables(ps) {
            return None;
        }
        if ps.len() == 1 {
            let only: Vec<Part> = vec![lone];
            assert(only@ =~= seq![alone(ps@[0])]);
            assert(scan::parts_fit(b@, only@));
            progressive::read_first_scan(b, &only, refine, al, columns, interval, cs, data, n)
        } else {
            progressive::read_first_scan(b, ps, refine, al, columns, interval, cs, data, n)
        }
    } else {
        if ps.len() != 1 || lone.ac == 0 || ss > se {
            return None;
        }
        progressive::read_band_scan(b, lone, ss as u64, se as u64, refine, al, columns, interval, cs, data, n)
    }
}

/// Whether the decoder can transform the block at `x`.
fn is_transformable(b: &[u8], q: usize, cs: &Vec<i16>, x: usize) -> (r: bool)
    requires
        q != 0,
        header::quantizer_fits(b@, q as int),
        progressive::block_lies(cs@, x as int),
    ensures
        r == (block_sum(b@, q as int, cs@, x as int, 64) <= MAX_SUM),
{
    assert(cs.len() <= usize::MAX && b.len() <= usize::MAX);
    let mut sum: i64 = 0;
    let mut n: usize = 0;
    while n < 64
        invariant
            n <= 64,
            q < b@.len(),
            cs@.len() <= usize::MAX,
            header::quantizer_fits(b@, q as int),
            progressive::block_lies(cs@, x as int),
            sum == block_sum(b@, q as int, cs@, x as int, n as int),
            0 <= sum <= n * 2_147_450_880,
        decreases 64 - n,
    {
        let c: i64 = cs[x + n] as i64;
        let positive: i64 = if c < 0 { -c } else { c };
        let w: i64 = scan::get_quantum(b, q, n) as i64;
        assert(0 <= positive * w <= 2_147_450_880) by (nonlinear_arith)
            requires
                0 <= positive <= 32768,
                0 <= w <= 65535,
        ;
        sum = sum + positive * w;
        n = n + 1;
    }
    sum <= MAX_SUM
}

/// Whether the decoder can transform every block.
fn are_transformable(b: &[u8], hd: &HeaderState, cs: &Vec<i16>) -> (r: bool)
    requires
        hd@.wf(b@),
        hd.frame != 0,
        has_quantizers(b@, hd@),
    ensures
        r == all_transformable(b@, hd@, cs@),
{
    assert(cs.len() <= usize::MAX && b.len() <= usize::MAX);
    let count: usize = b[hd.frame + 9] as usize;
    let mut k: usize = 0;
    while k < count
        invariant
            k <= count,
            count == components(b@, hd.frame as int),
            hd@.wf(b@),
            hd.frame != 0,
            has_quantizers(b@, hd@),
            cs@.len() <= usize::MAX,
            forall|c: int, i: int|
                0 <= c < k && 0 <= i < scan::blocks(b@, hd.frame as int, c) ==> #[trigger] transformable(
                    b@,
                    hd@,
                    cs@,
                    c,
                    i,
                ),
        decreases count - k,
    {
        let q: usize = get_quantizer(b, hd, k);
        assert(quantizer_of(b@, hd@, k as int) != 0);
        let base: u64 = scan::get_base(b, hd.frame, k);
        let blocks: u64 = scan::get_blocks(b, hd.frame, k);
        let mut i: u64 = 0;
        while i < blocks
            invariant
                i <= blocks <= 0x1000_0000,
                k < count,
                count == components(b@, hd.frame as int),
                count <= 4,
                hd@.wf(b@),
                hd.frame != 0,
                q == quantizer_of(b@, hd@, k as int),
                q != 0,
                header::quantizer_fits(b@, q as int),
                base == scan::base(b@, hd.frame as int, k as int),
                base <= 4 * 0x4_0000_0000,
                blocks == scan::blocks(b@, hd.frame as int, k as int),
                cs@.len() <= usize::MAX,
                forall|c: int| 0 <= c < i ==> #[trigger] transformable(b@, hd@, cs@, k as int, c),
            decreases blocks - i,
        {
            let x: u64 = base + 64 * i;
            if x > cs.len() as u64 || cs.len() as u64 - x < 64 || !is_transformable(b, q, cs, x as usize) {
                assert(!transformable(b@, hd@, cs@, k as int, i as int));
                return false;
            }
            i = i + 1;
        }
        k = k + 1;
    }
    true
}

/// Whether the decoder knows what a marker stands for.
fn is_known(m: u8) -> (r: bool)
    ensures
        r == known(m),
{
    (0xC0 <= m && m <= 0xC2) || m == 0xC4 || m == 0xCC || (0xD0 <= m && m <= 0xDD) || (0xE0 <= m && m <= 0xE2) || m
        == 0xED || m == 0xFE
}

/// Whether the progressive scans are complete and the decoder can transform what
/// they leave.
#[verifier::loop_isolation(false)]
fn is_progressed(b: &[u8], first: &HeaderState, j: usize, hd: &mut HeaderState, cs: &mut Vec<i16>) -> (r: bool)
    requires
        b@.len() <= MAX_LEN,
        first@.wf(b@),
        first.frame != 0,
        has_quantizers(b@, first@),
        old(hd)@ == first@,
        0 < j <= b@.len(),
    ensures
        r == progressed(b@, first@, first@, j as int, old(cs)@, 0),
{
    let ghost all = progressed(b@, first@, first@, j as int, old(cs)@, 0);
    let mut pos: usize = j;
    let mut n: u64 = 0;
    loop
        invariant
            0 < pos <= b@.len(),
            hd@.wf(b@),
            hd.frame != 0,
            n <= MAX_SCANS,
            all == progressed(b@, first@, hd@, pos as int, cs@, n as int),
        decreases b@.len() - pos,
    {
        let p: usize = match header::find_marker(b, pos) {
            Some(p) => p,
            None => {
                return true;
            },
        };
        let m: u8 = b[p];
        if m == 0xD9 {
            return are_transformable(b, first, cs);
        }
        if m == 0xDA {
            if !scan::is_scan(b, p - 1) || is_band_refused(b, p - 1) {
                return true;
            }
            let ps: Vec<Part> = match scan::read_parts(b, hd, p - 1) {
                Some(ps) => ps,
                None => {
                    return true;
                },
            };
            if n >= MAX_SCANS {
                return false;
            }
            match read_scan(b, hd, p - 1, &ps, cs) {
                None => {
                    return false;
                },
                Some(start) => {
                    pos = bits::find_end(b, start);
                },
            }
            n = n + 1;
        } else if 0xD0 <= m && m <= 0xD7 {
            pos = p + 1;
        } else if !is_known(m) {
            return false;
        } else {
            match hd.take(b, p) {
                None => {
                    return true;
                },
                Some(end) => {
                    pos = end;
                },
            }
        }
    }
}

/// Whether the decoder refuses the progressive scan with the header at `j` for its
/// band.
fn is_band_refused(b: &[u8], j: usize) -> (r: bool)
    requires
        scan_at(b@, j as int),
    ensures
        r == band_refused(b@, j as int),
{
    assert(b.len() <= usize::MAX);
    let tail: usize = j + 5 + 2 * b[j + 4] as usize;
    let (ss, se, x): (u8, u8, u8) = (b[tail], b[tail + 1], b[tail + 2]);
    ss > 63 || se > 63 || x / 16 > 13 || x % 16 > 13 || (se != 0 && (b[j + 4] > 1 || ss == 0))
}

/// Whether the decoder can lay out the frame.
fn is_layable(b: &[u8], hd: &HeaderState) -> (r: bool)
    requires
        hd@.wf(b@),
        hd.frame != 0,
    ensures
        r == layable(b@, hd@),
{
    assert(b.len() <= usize::MAX);
    let n: u8 = b[hd.frame + 9];
    let progressive: bool = b[hd.frame + 1] == 0xC2;
    if (n == 1 || (n == 4 && progressive)) && hd.late_adobe {
        return false;
    }
    n < 3 || is_sampled_evenly(b, hd.frame)
}

/// Whether the decoder returns on these bytes, with an image or with an error.
pub fn can_decode(b: &[u8]) -> (r: bool)
    ensures
        r == decodable(b@),
{
    if b.len() as u64 > MAX_LEN {
        return false;
    }
    if b.len() < 2 || b[0] != 0xFF || b[1] != 0xD8 {
        return true;
    }
    let mut hd = HeaderState::new();
    let j: usize = match hd.take_all(b) {
        Some(j) => j,
        None => {
            return true;
        },
    };
    if hd.frame == 0 || !scan::is_scan(b, j) || !has_all_quantizers(b, &hd) {
        return true;
    }
    let f: usize = hd.frame;
    let n: usize = b[f + 9] as usize;
    if n == 2 {
        return !hd.adobe;
    }
    if !is_layable(b, &hd) {
        return false;
    }
    if b[f + 1] != 0xC2 {
        return is_sequential(b, &hd, j);
    }
    let total: u64 = scan::get_base(b, f, n);
    if 2 * total > isize::MAX as u64 {
        return false;
    }
    let mut cs: Vec<i16> = vec![0i16; total as usize];
    assert(cs@ =~= no_coefficients(b@, f as int));
    let mut copy = HeaderState::new();
    copy.take_all(b);
    is_progressed(b, &hd, j, &mut copy, &mut cs)
}

} // verus!
