//! The scans of a JPEG image: which components they hold, how many blocks there
//! are, and whether the data of a sequential scan are complete.

use crate::jpeg::bits;
use crate::jpeg::bits::amplitude;
use crate::jpeg::bits::data_end;
use crate::jpeg::bits::data_from;
use crate::jpeg::bits::symbol_at;
use crate::jpeg::bits::MAX_LEN;
use crate::jpeg::header;
use crate::jpeg::header::frame_at;
use crate::jpeg::header::number;
use crate::jpeg::header::quantum;
use crate::jpeg::header::sampling;
use crate::jpeg::header::HeaderState;
use crate::jpeg::header::Headers;
use vstd::prelude::*;

verus! {

/// The largest sum of the coefficients of a block, each times its quantizer and
/// without its sign, that the decoder transforms without an overflow. The blocks
/// of an image with eight bits a sample stay below two thirds of it.
pub const MAX_SUM: i64 = 25_000;

/// The number of components in the frame header at `f`.
pub open spec fn components(b: Seq<u8>, f: int) -> int {
    b[f + 9] as int
}

/// How often component `k` is sampled across and down in a unit of an interleaved
/// scan. A single component is sampled once.
pub open spec fn across(b: Seq<u8>, f: int, k: int) -> int {
    if components(b, f) == 1 {
        1
    } else {
        sampling(b, f, k) as int / 16
    }
}

pub open spec fn down(b: Seq<u8>, f: int, k: int) -> int {
    if components(b, f) == 1 {
        1
    } else {
        sampling(b, f, k) as int % 16
    }
}

/// How many parts of `size` cover `n`.
pub open spec fn parts(n: int, size: int) -> int {
    (n + size - 1) / size
}

/// The columns and rows of units of an interleaved scan. The first component is
/// sampled most often.
pub open spec fn columns(b: Seq<u8>, f: int) -> int {
    parts(number(b, f + 7), 8 * across(b, f, 0))
}

pub open spec fn rows(b: Seq<u8>, f: int) -> int {
    parts(number(b, f + 5), 8 * down(b, f, 0))
}

/// The blocks of component `k`, in rows of `stride` blocks.
pub open spec fn stride(b: Seq<u8>, f: int, k: int) -> int {
    columns(b, f) * across(b, f, k)
}

pub open spec fn blocks(b: Seq<u8>, f: int, k: int) -> int {
    stride(b, f, k) * (rows(b, f) * down(b, f, k))
}

/// The coefficients of the components before component `k`.
pub open spec fn base(b: Seq<u8>, f: int, k: int) -> int
    decreases k,
{
    if k <= 0 {
        0
    } else {
        base(b, f, k - 1) + 64 * blocks(b, f, k - 1)
    }
}

/// What a scan says of one of its components: its place in the frame, where its
/// tables are, how many blocks of it a unit holds and how many of them lie side by
/// side, how many blocks make a row, and where its coefficients start.
#[derive(Clone, Copy)]
pub struct Part {
    pub k: usize,
    pub dc: usize,
    pub ac: usize,
    pub quantizer: usize,
    pub count: u64,
    pub across: u64,
    pub stride: u64,
    pub base: u64,
}

/// Whether a scan header that the decoder accepts stands at `j`: complete, and of
/// the length that its one to four components take.
pub open spec fn scan_at(b: Seq<u8>, j: int) -> bool {
    &&& 0 <= j
    &&& j + 8 <= b.len()
    &&& 1 <= b[j + 4] <= 4
    &&& number(b, j + 2) == 6 + 2 * b[j + 4]
    &&& j + 8 + 2 * b[j + 4] <= b.len()
}

/// Where the data of the scan with the header at `j` start.
pub open spec fn scan_data(b: Seq<u8>, j: int) -> int {
    j + 8 + 2 * b[j + 4]
}

/// The first component from `k` on with the given name.
pub open spec fn find(b: Seq<u8>, f: int, id: u8, k: int) -> Option<int>
    decreases components(b, f) - k,
{
    if k >= components(b, f) {
        None
    } else if b[f + 10 + 3 * k] == id {
        Some(k)
    } else {
        find(b, f, id, k + 1)
    }
}

/// The table of the given number, zero where there is none.
pub open spec fn table(tables: Seq<usize>, i: int) -> usize {
    if 0 <= i < 4 {
        tables[i]
    } else {
        0
    }
}

/// What the scan with the header at `j` says of its component `t`, which is
/// component `k` of the frame.
pub open spec fn part(b: Seq<u8>, hd: Headers, j: int, t: int, k: int) -> Part {
    let tables = b[j + 6 + 2 * t] as int;
    Part {
        k: k as usize,
        dc: table(hd.dc, tables / 16),
        ac: table(hd.ac, tables % 16),
        quantizer: hd.quantizers[header::quantizer(b, hd.frame, k) as int],
        count: (across(b, hd.frame, k) * down(b, hd.frame, k)) as u64,
        across: across(b, hd.frame, k) as u64,
        stride: stride(b, hd.frame, k) as u64,
        base: base(b, hd.frame, k) as u64,
    }
}

/// Whether a component is among those of a scan.
pub open spec fn holds(ps: Seq<Part>, k: int) -> bool {
    exists|i: int| 0 <= i < ps.len() && (#[trigger] ps[i]).k == k
}

/// What the scan with the header at `j` says of its first `t` components; none
/// where the decoder refuses it: it names a component that the frame does not hold,
/// or one twice.
pub open spec fn scan_parts(b: Seq<u8>, hd: Headers, j: int, t: int) -> Option<Seq<Part>>
    decreases t,
{
    if t <= 0 {
        Some(seq![])
    } else {
        match scan_parts(b, hd, j, t - 1) {
            None => None,
            Some(ps) => match find(b, hd.frame, b[j + 5 + 2 * (t - 1)], 0) {
                None => None,
                Some(k) => if holds(ps, k) {
                    None
                } else {
                    Some(ps.push(part(b, hd, j, t - 1, k)))
                },
            },
        }
    }
}

/// A part speaks of places within the bytes.
pub open spec fn part_fits(b: Seq<u8>, p: Part) -> bool {
    &&& p.k < 4
    &&& p.dc < b.len()
    &&& p.ac < b.len()
    &&& p.quantizer == 0 || header::quantizer_fits(b, p.quantizer as int)
    &&& 1 <= p.across <= 8
    &&& 1 <= p.count <= 64
    &&& p.across <= p.count
    &&& p.stride <= 16384
    &&& p.base <= 0x40_0000_0000
}

pub open spec fn parts_fit(b: Seq<u8>, ps: Seq<Part>) -> bool {
    forall|i: int| 0 <= i < ps.len() ==> part_fits(b, #[trigger] ps[i])
}

/// The sizes of a frame that the decoder accepts.
pub proof fn lemma_frame(b: Seq<u8>, f: int, k: int)
    requires
        frame_at(b, f),
        0 <= k < components(b, f),
    ensures
        1 <= across(b, f, k) <= 8,
        1 <= down(b, f, k) <= 8,
        1 <= columns(b, f) <= 2048,
        1 <= rows(b, f) <= 2048,
        1 <= stride(b, f, k) <= 16384,
        1 <= rows(b, f) * down(b, f, k) <= 16384,
        1 <= blocks(b, f, k) <= 0x1000_0000,
        1 <= across(b, f, k) * down(b, f, k) <= 64,
        across(b, f, k) <= across(b, f, k) * down(b, f, k),
{
    assert(header::component_fits(b, f, 0) && header::component_fits(b, f, k));
    let (a, d) = (across(b, f, k), down(b, f, k));
    let (w, h) = (number(b, f + 7), number(b, f + 5));
    lemma_parts(w, 8 * across(b, f, 0));
    lemma_parts(h, 8 * down(b, f, 0));
    let (c, r) = (columns(b, f), rows(b, f));
    assert(1 <= c * a <= 16384) by (nonlinear_arith)
        requires
            1 <= c <= 2048,
            1 <= a <= 8,
    ;
    assert(1 <= r * d <= 16384) by (nonlinear_arith)
        requires
            1 <= r <= 2048,
            1 <= d <= 8,
    ;
    assert(1 <= (c * a) * (r * d) <= 0x1000_0000) by (nonlinear_arith)
        requires
            1 <= c * a <= 16384,
            1 <= r * d <= 16384,
    ;
    assert(1 <= a * d <= 64 && a <= a * d) by (nonlinear_arith)
        requires
            1 <= a <= 8,
            1 <= d <= 8,
    ;
}

/// A side of at most 16384 takes one to 2048 parts of at least 8.
proof fn lemma_parts(n: int, size: int)
    requires
        1 <= n <= 16384,
        8 <= size,
    ensures
        1 <= parts(n, size) <= 2048,
{
    let p = parts(n, size);
    vstd::arithmetic::div_mod::lemma_fundamental_div_mod(n + size - 1, size);
    vstd::arithmetic::div_mod::lemma_mod_bound(n + size - 1, size);
    assert(p >= 1) by (nonlinear_arith)
        requires
            size * p + (n + size - 1) % size == n + size - 1,
            (n + size - 1) % size < size,
            n >= 1,
            size >= 8,
    ;
    assert(p <= 2048) by (nonlinear_arith)
        requires
            size * p + (n + size - 1) % size == n + size - 1,
            (n + size - 1) % size >= 0,
            n <= 16384,
            size >= 8,
    ;
}

/// The coefficients before a component can be counted.
pub proof fn lemma_base(b: Seq<u8>, f: int, k: int)
    requires
        frame_at(b, f),
        0 <= k <= components(b, f),
    ensures
        0 <= base(b, f, k) <= k * 0x4_0000_0000,
    decreases k,
{
    if k > 0 {
        lemma_base(b, f, k - 1);
        lemma_frame(b, f, k - 1);
    }
}

/// How often component `k` is sampled across.
pub fn get_across(b: &[u8], f: usize, k: usize) -> (r: u64)
    requires
        frame_at(b@, f as int),
        k < components(b@, f as int),
    ensures
        r == across(b@, f as int, k as int),
        1 <= r <= 8,
{
    proof {
        lemma_frame(b@, f as int, k as int);
        assert(b.len() <= usize::MAX);
    }
    if b[f + 9] == 1 {
        1
    } else {
        (b[f + 11 + 3 * k] / 16) as u64
    }
}

/// How often component `k` is sampled down.
pub fn get_down(b: &[u8], f: usize, k: usize) -> (r: u64)
    requires
        frame_at(b@, f as int),
        k < components(b@, f as int),
    ensures
        r == down(b@, f as int, k as int),
        1 <= r <= 8,
{
    proof {
        lemma_frame(b@, f as int, k as int);
        assert(b.len() <= usize::MAX);
    }
    if b[f + 9] == 1 {
        1
    } else {
        (b[f + 11 + 3 * k] % 16) as u64
    }
}

/// The columns of units.
pub fn get_columns(b: &[u8], f: usize) -> (r: u64)
    requires
        frame_at(b@, f as int),
    ensures
        r == columns(b@, f as int),
        1 <= r <= 2048,
{
    proof {
        lemma_frame(b@, f as int, 0);
        assert(b.len() <= usize::MAX);
    }
    let size: u64 = 8 * get_across(b, f, 0);
    (header::number_at(b, f + 7) as u64 + size - 1) / size
}

/// The rows of units.
pub fn get_rows(b: &[u8], f: usize) -> (r: u64)
    requires
        frame_at(b@, f as int),
    ensures
        r == rows(b@, f as int),
        1 <= r <= 2048,
{
    proof {
        lemma_frame(b@, f as int, 0);
        assert(b.len() <= usize::MAX);
    }
    let size: u64 = 8 * get_down(b, f, 0);
    (header::number_at(b, f + 5) as u64 + size - 1) / size
}

/// The blocks of component `k`.
pub fn get_blocks(b: &[u8], f: usize, k: usize) -> (r: u64)
    requires
        frame_at(b@, f as int),
        k < components(b@, f as int),
    ensures
        r == blocks(b@, f as int, k as int),
        1 <= r <= 0x1000_0000,
{
    proof {
        lemma_frame(b@, f as int, k as int);
    }
    let wide: u64 = get_columns(b, f) * get_across(b, f, k);
    let tall: u64 = get_rows(b, f) * get_down(b, f, k);
    wide * tall
}

/// The coefficients of the components before component `k`.
pub fn get_base(b: &[u8], f: usize, k: usize) -> (r: u64)
    requires
        frame_at(b@, f as int),
        k <= components(b@, f as int),
    ensures
        r == base(b@, f as int, k as int),
        r <= k * 0x4_0000_0000,
{
    let mut r: u64 = 0;
    let mut i: usize = 0;
    while i < k
        invariant
            i <= k <= components(b@, f as int) <= 4,
            frame_at(b@, f as int),
            r == base(b@, f as int, i as int),
            r <= i * 0x4_0000_0000,
        decreases k - i,
    {
        r = r + 64 * get_blocks(b, f, i);
        i = i + 1;
    }
    r
}

/// Whether a scan header that the decoder accepts stands at `j`.
pub fn is_scan(b: &[u8], j: usize) -> (r: bool)
    requires
        j <= b@.len(),
    ensures
        r == scan_at(b@, j as int),
{
    let rest: usize = b.len() - j;
    if rest < 8 {
        return false;
    }
    let n: u8 = b[j + 4];
    1 <= n && n <= 4 && header::number_at(b, j + 2) == 6 + 2 * n as u16 && rest >= 8 + 2 * n as usize
}

/// The first component with the given name.
fn find_component(b: &[u8], f: usize, id: u8) -> (r: Option<usize>)
    requires
        frame_at(b@, f as int),
    ensures
        (match find(b@, f as int, id, 0) {
            Some(k) => r == Some(k as usize) && 0 <= k < components(b@, f as int),
            None => r is None,
        }),
{
    assert(b.len() <= usize::MAX);
    let n: usize = b[f + 9] as usize;
    let mut k: usize = 0;
    while k < n
        invariant
            k <= n,
            n == components(b@, f as int),
            frame_at(b@, f as int),
            b@.len() <= usize::MAX,
            find(b@, f as int, id, 0) == find(b@, f as int, id, k as int),
        decreases n - k,
    {
        if b[f + 10 + 3 * k] == id {
            return Some(k);
        }
        k = k + 1;
    }
    None
}

/// Whether a component is among those of a scan.
pub fn is_held(ps: &Vec<Part>, k: usize) -> (r: bool)
    ensures
        r == holds(ps@, k as int),
{
    let mut i: usize = 0;
    while i < ps.len()
        invariant
            i <= ps@.len(),
            forall|c: int| 0 <= c < i ==> (#[trigger] ps@[c]).k != k,
        decreases ps@.len() - i,
    {
        if ps[i].k == k {
            return true;
        }
        i = i + 1;
    }
    false
}

/// The table of the given number.
fn get_table(tables: &Vec<usize>, i: u8) -> (r: usize)
    requires
        tables@.len() == 4,
    ensures
        r == table(tables@, i as int),
{
    if i < 4 {
        tables[i as usize]
    } else {
        0
    }
}

/// What the scan with the header at `j` says of its components, if the decoder does
/// not refuse it.
pub fn read_parts(b: &[u8], hd: &HeaderState, j: usize) -> (r: Option<Vec<Part>>)
    requires
        hd@.wf(b@),
        hd.frame != 0,
        scan_at(b@, j as int),
    ensures
        (match scan_parts(b@, hd@, j as int, b@[j + 4] as int) {
            Some(ps) => r matches Some(v) && v@ == ps && ps.len() == b@[j + 4] && parts_fit(b@, ps) && forall|i: int|
                0 <= i < ps.len() ==> (#[trigger] ps[i]).k < components(b@, hd.frame as int),
            None => r is None,
        }),
{
    assert(b.len() <= usize::MAX);
    let n: usize = b[j + 4] as usize;
    let f: usize = hd.frame;
    let mut ps: Vec<Part> = Vec::new();
    let mut t: usize = 0;
    while t < n
        invariant
            t <= n <= 4,
            n == b@[j + 4],
            f == hd.frame,
            f != 0,
            hd@.wf(b@),
            scan_at(b@, j as int),
            b@.len() <= usize::MAX,
            scan_parts(b@, hd@, j as int, t as int) == Some(ps@),
            ps@.len() == t,
            parts_fit(b@, ps@),
            forall|i: int| 0 <= i < ps@.len() ==> (#[trigger] ps@[i]).k < components(b@, f as int),
        decreases n - t,
    {
        proof {
            assert(t + 1 <= n ==> scan_parts(b@, hd@, j as int, n as int) is None
                || scan_parts(b@, hd@, j as int, t + 1) is Some) by {
                lemma_refused(b@, hd@, j as int, t + 1, n as int);
            }
        }
        let k: usize = match find_component(b, f, b[j + 5 + 2 * t]) {
            Some(k) => k,
            None => {
                return None;
            },
        };
        if is_held(&ps, k) {
            return None;
        }
        proof {
            lemma_frame(b@, f as int, k as int);
            lemma_base(b@, f as int, k as int);
            assert(header::component_fits(b@, f as int, k as int));
        }
        let tables: u8 = b[j + 6 + 2 * t];
        let wide: u64 = get_across(b, f, k);
        let tall: u64 = get_down(b, f, k);
        let p = Part {
            k,
            dc: get_table(&hd.dc, tables / 16),
            ac: get_table(&hd.ac, tables % 16),
            quantizer: hd.quantizers[b[f + 12 + 3 * k] as usize],
            count: wide * tall,
            across: wide,
            stride: get_columns(b, f) * wide,
            base: get_base(b, f, k),
        };
        assert(p == part(b@, hd@, j as int, t as int, k as int));
        ps.push(p);
        t = t + 1;
    }
    Some(ps)
}

/// A scan that is refused for its first components is refused.
proof fn lemma_refused(b: Seq<u8>, hd: Headers, j: int, t: int, n: int)
    requires
        0 <= t <= n,
    ensures
        scan_parts(b, hd, j, t) is None ==> scan_parts(b, hd, j, n) is None,
    decreases n,
{
    if t < n {
        lemma_refused(b, hd, j, t, n - 1);
    }
}

/// The quantizer of coefficient `k`.
pub fn get_quantum(b: &[u8], q: usize, k: usize) -> (r: u16)
    requires
        header::quantizer_fits(b@, q as int),
        q < b@.len(),
        k < 64,
    ensures
        r == quantum(b@, q as int, k as int),
{
    assert(b.len() <= usize::MAX);
    if b[q] / 16 == 0 {
        b[q + 1 + k] as u16
    } else {
        header::number_at(b, q + 1 + 2 * k)
    }
}

/// `v` without its sign.
pub open spec fn size(v: int) -> int {
    if v < 0 {
        -v
    } else {
        v
    }
}

/// Where the coefficients of a block end, from coefficient `k` on, if they are
/// complete and the sum of their sizes stays within the limit.
pub open spec fn coefficients_end(b: Seq<u8>, s: Seq<u8>, p: Part, at: int, k: int, sum: int) -> Option<int>
    decreases 80 - k,
{
    if k >= 64 {
        Some(at)
    } else {
        match symbol_at(b, p.ac as int, s, at) {
            None => None,
            Some((rs, end)) => {
                let place = k + rs as int / 16;
                let n = (rs as int % 16) as nat;
                if n == 0 {
                    if rs / 16 == 15 {
                        coefficients_end(b, s, p, end, k + 16, sum)
                    } else {
                        Some(end)
                    }
                } else if place > 63 {
                    None
                } else {
                    match amplitude(s, end, n) {
                        None => None,
                        Some(v) => {
                            let next = sum + size(v) * quantum(b, p.quantizer as int, place);
                            if next > MAX_SUM {
                                None
                            } else {
                                coefficients_end(b, s, p, end + n, place + 1, next)
                            }
                        },
                    }
                }
            },
        }
    }
}

/// Where a block ends, and the prediction for the next one of its component.
pub open spec fn block_end(b: Seq<u8>, s: Seq<u8>, p: Part, at: int, prediction: i32) -> Option<(int, i32)> {
    match symbol_at(b, p.dc as int, s, at) {
        None => None,
        Some((n, end)) => if n > 15 {
            None
        } else {
            match amplitude(s, end, n as nat) {
                None => None,
                Some(v) => {
                    let dc = prediction + v;
                    let sum = size(dc) * quantum(b, p.quantizer as int, 0);
                    if size(dc) > 32767 || sum > MAX_SUM {
                        None
                    } else {
                        match coefficients_end(b, s, p, end + n, 1, sum) {
                            None => None,
                            Some(e) => Some((e, dc as i32)),
                        }
                    }
                },
            }
        },
    }
}

/// The data of a scan, as far as they are read.
pub open spec fn readable(b: Seq<u8>, s: Seq<u8>, at: int) -> bool {
    &&& b.len() <= MAX_LEN
    &&& s.len() <= b.len()
    &&& 0 <= at <= 8 * s.len()
}

/// Whether the tables of a part are there.
pub open spec fn has_tables(p: Part) -> bool {
    p.dc != 0 && p.ac != 0
}

/// Where the coefficients of a block end, from the second one on.
fn read_coefficients(b: &[u8], s: &Vec<u8>, p: Part, start: u64, first: i64) -> (r: Option<u64>)
    requires
        readable(b@, s@, start as int),
        part_fits(b@, p),
        p.quantizer != 0,
        0 <= first <= MAX_SUM,
    ensures
        (match coefficients_end(b@, s@, p, start as int, 1, first as int) {
            Some(e) => r == Some(e as u64) && start <= e <= 8 * s@.len(),
            None => r is None,
        }),
{
    let mut at: u64 = start;
    let mut k: usize = 1;
    let mut sum: i64 = first;
    while k < 64
        invariant
            readable(b@, s@, at as int),
            part_fits(b@, p),
            p.quantizer != 0,
            0 <= sum <= MAX_SUM,
            start <= at,
            k <= 80,
            coefficients_end(b@, s@, p, start as int, 1, first as int) == coefficients_end(
                b@,
                s@,
                p,
                at as int,
                k as int,
                sum as int,
            ),
        decreases 80 - k,
    {
        match bits::read_symbol(b, p.ac, s, at) {
            None => {
                return None;
            },
            Some((rs, end)) => {
                let run: usize = (rs / 16) as usize;
                let n: u64 = (rs % 16) as u64;
                if n == 0 {
                    if run != 15 {
                        return Some(end);
                    }
                    at = end;
                    k = k + 16;
                } else {
                    if k + run > 63 {
                        return None;
                    }
                    match bits::read_amplitude(s, end, n) {
                        None => {
                            return None;
                        },
                        Some(v) => {
                            let positive: i64 = if v < 0 { -(v as i64) } else { v as i64 };
                            let q: i64 = get_quantum(b, p.quantizer, k + run) as i64;
                            assert(0 <= positive * q <= 32767 * 65535) by (nonlinear_arith)
                                requires
                                    0 <= positive <= 32767,
                                    0 <= q <= 65535,
                            ;
                            sum = sum + positive * q;
                            if sum > MAX_SUM {
                                return None;
                            }
                            at = end + n;
                            k = k + run + 1;
                        },
                    }
                }
            },
        }
    }
    Some(at)
}

/// Where a block ends, and the prediction for the next one of its component.
fn read_block(b: &[u8], s: &Vec<u8>, p: Part, at: u64, prediction: i32) -> (r: Option<(u64, i32)>)
    requires
        readable(b@, s@, at as int),
        part_fits(b@, p),
        p.quantizer != 0,
        -32767 <= prediction <= 32767,
    ensures
        (match block_end(b@, s@, p, at as int, prediction) {
            Some((e, next)) => r == Some((e as u64, next)) && at <= e <= 8 * s@.len() && -32767 <= next <= 32767,
            None => r is None,
        }),
{
    match bits::read_symbol(b, p.dc, s, at) {
        None => None,
        Some((n, end)) => {
            if n > 15 {
                return None;
            }
            match bits::read_amplitude(s, end, n as u64) {
                None => None,
                Some(v) => {
                    let dc: i32 = prediction + v;
                    let positive: i64 = if dc < 0 { -(dc as i64) } else { dc as i64 };
                    let q: i64 = get_quantum(b, p.quantizer, 0) as i64;
                    assert(0 <= positive * q <= 65534 * 65535) by (nonlinear_arith)
                        requires
                            0 <= positive <= 65534,
                            0 <= q <= 65535,
                    ;
                    if positive > 32767 || positive * q > MAX_SUM {
                        return None;
                    }
                    match read_coefficients(b, s, p, end + n as u64, positive * q) {
                        None => None,
                        Some(e) => Some((e, dc)),
                    }
                },
            }
        },
    }
}

/// Where a unit of a scan ends, from block `i` of component `t` on, and the
/// predictions for the next one.
pub open spec fn unit_end(b: Seq<u8>, s: Seq<u8>, ps: Seq<Part>, at: int, dcs: Seq<i32>, t: int, i: int) -> Option<
    (int, Seq<i32>),
>
    decreases ps.len() - t, (if t < ps.len() { ps[t].count - i } else { 0 }),
{
    if t >= ps.len() {
        Some((at, dcs))
    } else if i >= ps[t].count {
        unit_end(b, s, ps, at, dcs, t + 1, 0)
    } else {
        match block_end(b, s, ps[t], at, dcs[ps[t].k as int]) {
            None => None,
            Some((e, dc)) => unit_end(b, s, ps, e, dcs.update(ps[t].k as int, dc), t, i + 1),
        }
    }
}

/// Predictions that are within bounds.
pub open spec fn predictions(dcs: Seq<i32>) -> bool {
    dcs.len() == 4 && forall|i: int| 0 <= i < 4 ==> -32767 <= #[trigger] dcs[i] <= 32767
}

/// Where a unit of a scan ends.
fn read_unit(b: &[u8], s: &Vec<u8>, ps: &Vec<Part>, start: u64, dcs: &mut Vec<i32>) -> (r: Option<u64>)
    requires
        readable(b@, s@, start as int),
        parts_fit(b@, ps@),
        forall|i: int| 0 <= i < ps@.len() ==> (#[trigger] ps@[i]).quantizer != 0,
        predictions(old(dcs)@),
    ensures
        (match unit_end(b@, s@, ps@, start as int, old(dcs)@, 0, 0) {
            Some((e, next)) => r == Some(e as u64) && start <= e <= 8 * s@.len() && final(dcs)@ == next,
            None => r is None,
        }),
        predictions(final(dcs)@),
{
    let mut at: u64 = start;
    let mut t: usize = 0;
    while t < ps.len()
        invariant
            readable(b@, s@, at as int),
            parts_fit(b@, ps@),
            forall|i: int| 0 <= i < ps@.len() ==> (#[trigger] ps@[i]).quantizer != 0,
            predictions(dcs@),
            start <= at,
            t <= ps@.len(),
            unit_end(b@, s@, ps@, start as int, old(dcs)@, 0, 0) == unit_end(
                b@,
                s@,
                ps@,
                at as int,
                dcs@,
                t as int,
                0,
            ),
        decreases ps@.len() - t,
    {
        let p: Part = ps[t];
        assert(part_fits(b@, ps@[t as int]));
        let mut i: u64 = 0;
        while i < p.count
            invariant
                readable(b@, s@, at as int),
                t < ps@.len(),
                p == ps@[t as int],
                part_fits(b@, p),
                p.quantizer != 0,
                predictions(dcs@),
                start <= at,
                i <= p.count,
                unit_end(b@, s@, ps@, start as int, old(dcs)@, 0, 0) == unit_end(
                    b@,
                    s@,
                    ps@,
                    at as int,
                    dcs@,
                    t as int,
                    i as int,
                ),
            decreases p.count - i,
        {
            match read_block(b, s, p, at, dcs[p.k]) {
                None => {
                    return None;
                },
                Some((e, dc)) => {
                    at = e;
                    dcs.set(p.k, dc);
                },
            }
            i = i + 1;
        }
        t = t + 1;
    }
    Some(at)
}

/// No predictions yet.
pub open spec fn no_predictions() -> Seq<i32> {
    seq![0i32, 0, 0, 0]
}

/// Whether a restart marker ends the data from `start` on.
pub open spec fn restarts(b: Seq<u8>, start: int) -> bool {
    let e = data_end(b, start);
    e + 1 < b.len() && 0xD0 <= b[e + 1] <= 0xD7
}

/// Where the last data of a scan start, and how many units are left to a restart,
/// if `n` more units are complete. The data now start at `start` and are read up to
/// `at`.
pub open spec fn units_end(
    b: Seq<u8>,
    ps: Seq<Part>,
    interval: int,
    start: int,
    at: int,
    dcs: Seq<i32>,
    left: int,
    n: int,
) -> Option<(int, int)>
    decreases n,
{
    if n <= 0 {
        Some((start, left))
    } else {
        match unit_end(b, data_from(b, start), ps, at, dcs, 0, 0) {
            None => None,
            Some((e, next)) => if left != 1 {
                units_end(b, ps, interval, start, e, next, if left > 0 { left - 1 } else { 0 }, n - 1)
            } else if n == 1 {
                Some((start, interval))
            } else if restarts(b, start) {
                units_end(b, ps, interval, data_end(b, start) + 2, 0, no_predictions(), interval, n - 1)
            } else {
                None
            },
        }
    }
}

/// Where the last data of a scan start, and how many units are left to a restart.
pub fn read_units(b: &[u8], ps: &Vec<Part>, interval: u64, first: usize, rest: u64, count: u64) -> (r: Option<
    (usize, u64),
>)
    requires
        b@.len() <= MAX_LEN,
        first <= b@.len(),
        parts_fit(b@, ps@),
        forall|i: int| 0 <= i < ps@.len() ==> (#[trigger] ps@[i]).quantizer != 0,
    ensures
        (match units_end(
            b@,
            ps@,
            interval as int,
            first as int,
            0,
            no_predictions(),
            rest as int,
            count as int,
        ) {
            Some((start, left)) => r == Some((start as usize, left as u64)) && first <= start <= b@.len() && 0 <= left
                && (left <= rest || left <= interval),
            None => r is None,
        }),
{
    let mut start: usize = first;
    let (mut s, mut end) = bits::take_data(b, start);
    let mut at: u64 = 0;
    let mut dcs: Vec<i32> = vec![0, 0, 0, 0];
    assert(dcs@ =~= no_predictions());
    let mut left: u64 = rest;
    let mut n: u64 = count;
    while n > 0
        invariant
            first <= start <= b@.len() <= MAX_LEN,
            parts_fit(b@, ps@),
            forall|i: int| 0 <= i < ps@.len() ==> (#[trigger] ps@[i]).quantizer != 0,
            s@ == data_from(b@, start as int),
            end == data_end(b@, start as int),
            start <= end <= b@.len(),
            readable(b@, s@, at as int),
            predictions(dcs@),
            left <= rest || left <= interval,
            units_end(
                b@,
                ps@,
                interval as int,
                first as int,
                0,
                no_predictions(),
                rest as int,
                count as int,
            ) == units_end(
                b@,
                ps@,
                interval as int,
                start as int,
                at as int,
                dcs@,
                left as int,
                n as int,
            ),
        decreases n,
    {
        match read_unit(b, &s, ps, at, &mut dcs) {
            None => {
                return None;
            },
            Some(e) => {
                at = e;
            },
        }
        if left != 1 {
            left = if left > 0 { left - 1 } else { 0 };
        } else if n == 1 {
            return Some((start, interval));
        } else {
            if b.len() - end < 2 || b[end + 1] < 0xD0 || b[end + 1] > 0xD7 {
                return None;
            }
            start = end + 2;
            let (next, next_end) = bits::take_data(b, start);
            s = next;
            end = next_end;
            at = 0;
            dcs = vec![0, 0, 0, 0];
            assert(dcs@ =~= no_predictions());
            left = interval;
        }
        n = n - 1;
    }
    Some((start, left))
}

} // verus!
