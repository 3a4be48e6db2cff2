//! Progressive scans: each adds to the coefficients that the scans before it left.

use crate::jpeg::bits;
use crate::jpeg::bits::amplitude;
use crate::jpeg::bits::bit;
use crate::jpeg::bits::data_end;
use crate::jpeg::bits::data_from;
use crate::jpeg::bits::symbol_at;
use crate::jpeg::bits::two;
use crate::jpeg::bits::MAX_LEN;
use crate::jpeg::scan::no_predictions;
use crate::jpeg::scan::part_fits;
use crate::jpeg::scan::parts_fit;
use crate::jpeg::scan::predictions;
use crate::jpeg::scan::readable;
use crate::jpeg::scan::restarts;
use crate::jpeg::scan::Part;
use vstd::prelude::*;

verus! {

/// What the coefficients are multiplied with in a scan: `2` to the power of `al`.
pub fn power(al: u64) -> (r: i32)
    requires
        al <= 13,
    ensures
        r == two(al as nat),
        1 <= r <= 32768,
{
    let mut r: i32 = 1;
    let mut i: u64 = 0;
    while i < al
        invariant
            i <= al <= 13,
            r == two(i as nat),
            1 <= r <= 32768,
        decreases al - i,
    {
        proof {
            bits::lemma_two(i as nat);
            bits::lemma_two((i + 1) as nat);
        }
        r = 2 * r;
        i = i + 1;
    }
    r
}

/// Whether a number fits in a coefficient.
pub open spec fn fits(v: int) -> bool {
    -32767 <= v <= 32767
}

/// Where the coefficients of block `i` of unit `m` start, in a scan with `columns`
/// units in a row.
pub open spec fn block_place(p: Part, columns: int, m: int, i: int) -> int {
    let x = m % columns * p.across + i % (p.across as int);
    let y = m / columns * (p.count as int / p.across as int) + i / (p.across as int);
    p.base + 64 * (x + y * p.stride)
}

/// Where the coefficients of a block start.
fn place_block(b: &[u8], p: Part, columns: u64, m: u64, i: u64) -> (r: u64)
    requires
        part_fits(b@, p),
        1 <= columns <= 2048,
        m <= 0x40_0000,
        i < 64,
    ensures
        r == block_place(p, columns as int, m as int, i as int),
{
    let (column, row): (u64, u64) = (m % columns, m / columns);
    let tall: u64 = p.count / p.across;
    proof {
        let a = p.across as int;
        assert(0 <= m as int / columns as int <= m) by (nonlinear_arith)
            requires
                columns >= 1,
                m >= 0,
        ;
        assert(0 <= column * a <= 16384) by (nonlinear_arith)
            requires
                0 <= column <= 2048,
                1 <= a <= 8,
        ;
        assert(0 <= p.count as int / a <= 64) by (nonlinear_arith)
            requires
                0 <= p.count <= 64,
                a >= 1,
        ;
        assert(0 <= row * tall <= 0x1000_0000) by (nonlinear_arith)
            requires
                0 <= row <= 0x40_0000,
                0 <= tall <= 64,
        ;
        assert(0 <= i as int / a <= 64 && 0 <= i as int % a < 8) by (nonlinear_arith)
            requires
                0 <= i < 64,
                1 <= a <= 8,
        ;
        let y = row * tall + i as int / a;
        assert(0 <= y * p.stride <= 0x2000_0000 * 16384) by (nonlinear_arith)
            requires
                0 <= y <= 0x2000_0000,
                0 <= p.stride <= 16384,
        ;
    }
    let x: u64 = column * p.across + i % p.across;
    let y: u64 = row * tall + i / p.across;
    p.base + 64 * (x + y * p.stride)
}

/// The first coefficient of a block after a scan of first coefficients, where its
/// data end and the prediction for the next block: from a difference, or by one
/// more bit.
pub open spec fn first_coefficient(
    b: Seq<u8>,
    s: Seq<u8>,
    p: Part,
    refine: bool,
    al: nat,
    at: int,
    prediction: i32,
    c: i16,
) -> Option<(i16, int, i32)> {
    if refine {
        if at >= 8 * s.len() || !fits(c + bit(s, at) * two(al)) {
            None
        } else {
            Some(((c + bit(s, at) * two(al)) as i16, at + 1, prediction))
        }
    } else {
        match symbol_at(b, p.dc as int, s, at) {
            None => None,
            Some((n, end)) => if n > 15 {
                None
            } else {
                match amplitude(s, end, n as nat) {
                    None => None,
                    Some(v) => {
                        let dc = prediction + v;
                        if !fits(dc) || !fits(dc * two(al)) {
                            None
                        } else {
                            Some(((dc * two(al)) as i16, end + n, dc as i32))
                        }
                    },
                }
            },
        }
    }
}

/// The first coefficient of a block after a scan of first coefficients.
fn read_first(b: &[u8], s: &Vec<u8>, p: Part, refine: bool, al: u64, at: u64, prediction: i32, c: i16) -> (r: Option<
    (i16, u64, i32),
>)
    requires
        readable(b@, s@, at as int),
        part_fits(b@, p),
        al <= 13,
        fits(prediction as int),
    ensures
        (match first_coefficient(b@, s@, p, refine, al as nat, at as int, prediction, c) {
            Some((v, e, next)) => r == Some((v, e as u64, next)) && at <= e <= 8 * s@.len() && fits(next as int),
            None => r is None,
        }),
{
    let unit: i32 = power(al);
    if refine {
        if at >= 8 * s.len() as u64 {
            return None;
        }
        let more: i32 = bit_times(s, at, unit);
        let v: i32 = c as i32 + more;
        if v < -32767 || v > 32767 {
            return None;
        }
        return Some((v as i16, at + 1, prediction));
    }
    match bits::read_symbol(b, p.dc, s, at) {
        None => None,
        Some((n, end)) => {
            if n > 15 {
                return None;
            }
            match bits::read_amplitude(s, end, n as u64) {
                None => None,
                Some(v) => {
                    let dc: i32 = prediction + v;
                    if dc < -32767 || dc > 32767 {
                        return None;
                    }
                    assert(-32767 * 32768 <= dc * unit <= 32767 * 32768) by (nonlinear_arith)
                        requires
                            -32767 <= dc <= 32767,
                            1 <= unit <= 32768,
                    ;
                    let value: i32 = dc * unit;
                    if value < -32767 || value > 32767 {
                        return None;
                    }
                    Some((value as i16, end + n as u64, dc))
                },
            }
        },
    }
}

/// `unit` if the bit at `at` is set, else zero.
fn bit_times(s: &Vec<u8>, at: u64, unit: i32) -> (r: i32)
    requires
        at < 8 * s@.len(),
        1 <= unit <= 32768,
    ensures
        r == bit(s@, at as int) * unit,
        0 <= r <= unit,
{
    proof {
        vstd::arithmetic::mul::lemma_mul_basics(unit as int);
    }
    if bits::bit_at(s, at) == 1 {
        unit
    } else {
        0
    }
}

/// The coefficients after a unit of a scan of first coefficients, from block `i` of
/// component `t` on, where its data end and the predictions for the next one.
pub open spec fn first_unit(
    b: Seq<u8>,
    s: Seq<u8>,
    ps: Seq<Part>,
    refine: bool,
    al: nat,
    columns: int,
    m: int,
    cs: Seq<i16>,
    at: int,
    dcs: Seq<i32>,
    t: int,
    i: int,
) -> Option<(Seq<i16>, int, Seq<i32>)>
    decreases ps.len() - t, (if t < ps.len() { ps[t].count - i } else { 0 }),
{
    if t >= ps.len() {
        Some((cs, at, dcs))
    } else if i >= ps[t].count {
        first_unit(b, s, ps, refine, al, columns, m, cs, at, dcs, t + 1, 0)
    } else {
        let x = block_place(ps[t], columns, m, i);
        let k = ps[t].k as int;
        if x >= cs.len() {
            None
        } else {
            match first_coefficient(b, s, ps[t], refine, al, at, dcs[k], cs[x]) {
                None => None,
                Some((v, e, dc)) => first_unit(
                    b,
                    s,
                    ps,
                    refine,
                    al,
                    columns,
                    m,
                    cs.update(x, v),
                    e,
                    dcs.update(k, dc),
                    t,
                    i + 1,
                ),
            }
        }
    }
}

/// Reads a unit of a scan of first coefficients. Returns where its data end.
#[verifier::loop_isolation(false)]
fn read_first_unit(
    b: &[u8],
    s: &Vec<u8>,
    ps: &Vec<Part>,
    refine: bool,
    al: u64,
    columns: u64,
    m: u64,
    cs: &mut Vec<i16>,
    start: u64,
    dcs: &mut Vec<i32>,
) -> (r: Option<u64>)
    requires
        readable(b@, s@, start as int),
        parts_fit(b@, ps@),
        al <= 13,
        1 <= columns <= 2048,
        m <= 0x40_0000,
        predictions(old(dcs)@),
    ensures
        (match first_unit(
            b@,
            s@,
            ps@,
            refine,
            al as nat,
            columns as int,
            m as int,
            old(cs)@,
            start as int,
            old(dcs)@,
            0,
            0,
        ) {
            Some((after, e, next)) => r == Some(e as u64) && start <= e <= 8 * s@.len() && final(cs)@ == after
                && final(dcs)@ == next,
            None => r is None,
        }),
        predictions(final(dcs)@),
{
    let ghost all = first_unit(
        b@,
        s@,
        ps@,
        refine,
        al as nat,
        columns as int,
        m as int,
        old(cs)@,
        start as int,
        old(dcs)@,
        0,
        0,
    );
    let mut at: u64 = start;
    let mut t: usize = 0;
    while t < ps.len()
        invariant
            readable(b@, s@, at as int),
            parts_fit(b@, ps@),
            al <= 13,
            1 <= columns <= 2048,
            m <= 0x40_0000,
            predictions(dcs@),
            start <= at,
            t <= ps@.len(),
            all == first_unit(
                b@,
                s@,
                ps@,
                refine,
                al as nat,
                columns as int,
                m as int,
                cs@,
                at as int,
                dcs@,
                t as int,
                0,
            ),
        decreases ps@.len() - t,
    {
        let p: Part = ps[t];
        assert(part_fits(b@, ps@[t as int]));
        let mut i: u64 = 0;
        while i < p.count
            invariant
                readable(b@, s@, at as int),
                t < ps@.len(),
                p == ps@[t as int],
                part_fits(b@, p),
                al <= 13,
                1 <= columns <= 2048,
                m <= 0x40_0000,
                predictions(dcs@),
                start <= at,
                i <= p.count,
                all == first_unit(
                    b@,
                    s@,
                    ps@,
                    refine,
                    al as nat,
                    columns as int,
                    m as int,
                    cs@,
                    at as int,
                    dcs@,
                    t as int,
                    i as int,
                ),
            decreases p.count - i,
        {
            let x: u64 = place_block(b, p, columns, m, i);
            if x >= cs.len() as u64 {
                return None;
            }
            match read_first(b, s, p, refine, al, at, dcs[p.k], cs[x as usize]) {
                None => {
                    return None;
                },
                Some((v, e, dc)) => {
                    at = e;
                    cs.set(x as usize, v);
                    dcs.set(p.k, dc);
                },
            }
            i = i + 1;
        }
        t = t + 1;
    }
    Some(at)
}

/// The coefficients after a scan of first coefficients, from unit `m` on, and where
/// its last data start. The data now start at `start` and are read up to `at`; a
/// restart is due after `left` units.
pub open spec fn first_scan(
    b: Seq<u8>,
    ps: Seq<Part>,
    refine: bool,
    al: nat,
    columns: int,
    interval: int,
    cs: Seq<i16>,
    start: int,
    at: int,
    dcs: Seq<i32>,
    left: int,
    m: int,
    n: int,
) -> Option<(Seq<i16>, int)>
    decreases n - m,
{
    if m >= n {
        Some((cs, start))
    } else {
        match first_unit(b, data_from(b, start), ps, refine, al, columns, m, cs, at, dcs, 0, 0) {
            None => None,
            Some((after, e, next)) => if left != 1 || m + 1 == n {
                first_scan(
                    b,
                    ps,
                    refine,
                    al,
                    columns,
                    interval,
                    after,
                    start,
                    e,
                    next,
                    if left > 0 { left - 1 } else { 0 },
                    m + 1,
                    n,
                )
            } else if restarts(b, start) {
                first_scan(
                    b,
                    ps,
                    refine,
                    al,
                    columns,
                    interval,
                    after,
                    data_end(b, start) + 2,
                    0,
                    no_predictions(),
                    interval,
                    m + 1,
                    n,
                )
            } else {
                None
            },
        }
    }
}

/// Reads a scan of first coefficients. Returns where its last data start.
#[verifier::loop_isolation(false)]
pub fn read_first_scan(
    b: &[u8],
    ps: &Vec<Part>,
    refine: bool,
    al: u64,
    columns: u64,
    interval: u64,
    cs: &mut Vec<i16>,
    first: usize,
    n: u64,
) -> (r: Option<usize>)
    requires
        b@.len() <= MAX_LEN,
        first <= b@.len(),
        parts_fit(b@, ps@),
        al <= 13,
        1 <= columns <= 2048,
        n <= 0x40_0000,
    ensures
        (match first_scan(
            b@,
            ps@,
            refine,
            al as nat,
            columns as int,
            interval as int,
            old(cs)@,
            first as int,
            0,
            no_predictions(),
            interval as int,
            0,
            n as int,
        ) {
            Some((after, start)) => r == Some(start as usize) && first <= start <= b@.len() && final(cs)@ == after,
            None => r is None,
        }),
{
    let ghost all = first_scan(
        b@,
        ps@,
        refine,
        al as nat,
        columns as int,
        interval as int,
        old(cs)@,
        first as int,
        0,
        no_predictions(),
        interval as int,
        0,
        n as int,
    );
    let mut start: usize = first;
    let (mut s, mut end) = bits::take_data(b, start);
    let mut at: u64 = 0;
    let mut dcs: Vec<i32> = vec![0, 0, 0, 0];
    assert(dcs@ =~= no_predictions());
    let mut left: u64 = interval;
    let mut m: u64 = 0;
    while m < n
        invariant
            first <= start <= b@.len() <= MAX_LEN,
            parts_fit(b@, ps@),
            al <= 13,
            1 <= columns <= 2048,
            m <= n <= 0x40_0000,
            s@ == data_from(b@, start as int),
            end == data_end(b@, start as int),
            start <= end <= b@.len(),
            readable(b@, s@, at as int),
            predictions(dcs@),
            all == first_scan(
                b@,
                ps@,
                refine,
                al as nat,
                columns as int,
                interval as int,
                cs@,
                start as int,
                at as int,
                dcs@,
                left as int,
                m as int,
                n as int,
            ),
        decreases n - m,
    {
        match read_first_unit(b, &s, ps, refine, al, columns, m, cs, at, &mut dcs) {
            None => {
                return None;
            },
            Some(e) => {
                at = e;
            },
        }
        if left != 1 || m + 1 == n {
            left = if left > 0 { left - 1 } else { 0 };
        } else {
            if b.len() - end < 2 || b[end + 1] < 0xD0 || b[end + 1] > 0xD7 {
                return None;
            }
            start = end + 2;
            let (next, next_end) = bits::take_data(b, start);
            s = next;
            end = next_end;
            at = 0;
            dcs = vec![0, 0, 0, 0];
            assert(dcs@ =~= no_predictions());
            left = interval;
        }
        m = m + 1;
    }
    Some(start)
}

/// What a band of coefficients becomes in one block of a scan: the coefficients,
/// where the data end, and for how many more blocks there is nothing new.
pub type Band = Option<(Seq<i16>, int, int)>;

/// The band from coefficient `k` to `se` of the block at `x` after its first scan.
pub open spec fn new_band(b: Seq<u8>, s: Seq<u8>, t: int, x: int, se: int, al: nat, cs: Seq<i16>, at: int, k: int) -> Band
    decreases 80 - k,
{
    if k > se || k > 63 {
        Some((cs, at, 0))
    } else {
        match symbol_at(b, t, s, at) {
            None => None,
            Some((rs, end)) => {
                let run = rs as int / 16;
                let n = (rs as int % 16) as nat;
                if n == 0 {
                    if run == 15 {
                        new_band(b, s, t, x, se, al, cs, end, k + 16)
                    } else if end + run > 8 * s.len() {
                        None
                    } else {
                        Some((cs, end + run, two(run as nat) + bits::bits(s, end, run as nat) - 1))
                    }
                } else if k + run > se {
                    None
                } else {
                    match amplitude(s, end, n) {
                        None => None,
                        Some(v) => if !fits(v * two(al)) {
                            None
                        } else {
                            new_band(
                                b,
                                s,
                                t,
                                x,
                                se,
                                al,
                                cs.update(x + k + run, (v * two(al)) as i16),
                                end + n,
                                k + run + 1,
                            )
                        },
                    }
                }
            },
        }
    }
}

/// Reads the number of blocks without anything new.
fn read_run(s: &Vec<u8>, at: u64, n: u64) -> (r: u64)
    requires
        n <= 14,
        at + n <= 8 * s@.len(),
        8 * s@.len() <= u64::MAX,
    ensures
        r == two(n as nat) + bits::bits(s@, at as int, n as nat),
        1 <= r <= 65536,
{
    proof {
        bits::lemma_two(n as nat);
    }
    let more: u32 = bits::read_bits(s, at, n);
    let mut unit: u64 = 1;
    let mut i: u64 = 0;
    while i < n
        invariant
            i <= n <= 14,
            unit == two(i as nat),
            unit <= 32768,
        decreases n - i,
    {
        proof {
            bits::lemma_two(i as nat);
            bits::lemma_two((i + 1) as nat);
        }
        unit = 2 * unit;
        i = i + 1;
    }
    unit + more as u64
}

/// The coefficients of a block, at `x`, lie within `cs`.
pub open spec fn block_lies(cs: Seq<i16>, x: int) -> bool {
    0 <= x && x + 64 <= cs.len()
}

/// Reads a band of a block in its first scan. Returns where its data end and for
/// how many more blocks there is nothing new.
#[verifier::loop_isolation(false)]
fn read_new_band(
    b: &[u8],
    s: &Vec<u8>,
    p: Part,
    x: usize,
    ss: u64,
    se: u64,
    al: u64,
    cs: &mut Vec<i16>,
    start: u64,
) -> (r: Option<(u64, u64)>)
    requires
        readable(b@, s@, start as int),
        part_fits(b@, p),
        block_lies(old(cs)@, x as int),
        1 <= ss <= se <= 63,
        al <= 13,
    ensures
        (match new_band(b@, s@, p.ac as int, x as int, se as int, al as nat, old(cs)@, start as int, ss as int) {
            Some((after, e, run)) => r == Some((e as u64, run as u64)) && start <= e <= 8 * s@.len() && 0 <= run
                <= 65536 && final(cs)@ == after,
            None => r is None,
        }),
        final(cs)@.len() == old(cs)@.len(),
{
    let ghost all = new_band(
        b@,
        s@,
        p.ac as int,
        x as int,
        se as int,
        al as nat,
        old(cs)@,
        start as int,
        ss as int,
    );
    let unit: i32 = power(al);
    assert(cs.len() <= usize::MAX);
    let mut at: u64 = start;
    let mut k: u64 = ss;
    while k <= se
        invariant
            readable(b@, s@, at as int),
            part_fits(b@, p),
            block_lies(cs@, x as int),
            cs@.len() == old(cs)@.len() <= usize::MAX,
            1 <= ss <= k <= 80,
            se <= 63,
            al <= 13,
            unit == two(al as nat),
            1 <= unit <= 32768,
            start <= at,
            all == new_band(b@, s@, p.ac as int, x as int, se as int, al as nat, cs@, at as int, k as int),
        decreases 80 - k,
    {
        match bits::read_symbol(b, p.ac, s, at) {
            None => {
                return None;
            },
            Some((rs, end)) => {
                let run: u64 = (rs / 16) as u64;
                let n: u64 = (rs % 16) as u64;
                if n == 0 {
                    if run != 15 {
                        if end + run > 8 * s.len() as u64 {
                            return None;
                        }
                        return Some((end + run, read_run(s, end, run) - 1));
                    }
                    at = end;
                    k = k + 16;
                } else {
                    if k + run > se {
                        return None;
                    }
                    match bits::read_amplitude(s, end, n) {
                        None => {
                            return None;
                        },
                        Some(v) => {
                            assert(-32767 * 32768 <= v * unit <= 32767 * 32768) by (nonlinear_arith)
                                requires
                                    -32767 <= v <= 32767,
                                    1 <= unit <= 32768,
                            ;
                            let value: i32 = v * unit;
                            if value < -32767 || value > 32767 {
                                return None;
                            }
                            cs.set(x + (k + run) as usize, value as i16);
                            at = end + n;
                            k = k + run + 1;
                        },
                    }
                }
            },
        }
    }
    Some((at, 0))
}

/// A coefficient with one more bit: where the bit is set and not taken up yet, the
/// coefficient grows away from zero.
pub open spec fn grown(c: i16, set: bool, unit: i16) -> int {
    if set && c & unit == 0 {
        if c >= 0 {
            c + unit
        } else {
            c - unit
        }
    } else {
        c as int
    }
}

/// The coefficients from `k` to `se` of the block at `x`, each that is not zero with
/// one more bit, and where the data end.
pub open spec fn grown_band(s: Seq<u8>, x: int, se: int, unit: i16, cs: Seq<i16>, at: int, k: int) -> Option<
    (Seq<i16>, int),
>
    decreases 64 - k,
{
    if k > se || k > 63 {
        Some((cs, at))
    } else if cs[x + k] == 0 {
        grown_band(s, x, se, unit, cs, at, k + 1)
    } else if at >= 8 * s.len() || !fits(grown(cs[x + k], bit(s, at) == 1, unit)) {
        None
    } else {
        grown_band(
            s,
            x,
            se,
            unit,
            cs.update(x + k, grown(cs[x + k], bit(s, at) == 1, unit) as i16),
            at + 1,
            k + 1,
        )
    }
}

/// One more bit for a coefficient.
fn grow(s: &Vec<u8>, at: u64, c: i16, unit: i16) -> (r: i32)
    requires
        at < 8 * s@.len(),
        0 < unit <= 8192,
    ensures
        r == grown(c, bit(s@, at as int) == 1, unit),
{
    if bits::bit_at(s, at) == 1 && c & unit == 0 {
        if c >= 0 {
            c as i32 + unit as i32
        } else {
            c as i32 - unit as i32
        }
    } else {
        c as i32
    }
}

/// Reads one more bit for each coefficient of a band that is not zero. Returns
/// where the data end.
#[verifier::loop_isolation(false)]
fn read_grown_band(s: &Vec<u8>, x: usize, first: u64, se: u64, unit: i16, cs: &mut Vec<i16>, start: u64) -> (r: Option<
    u64,
>)
    requires
        s@.len() <= MAX_LEN,
        start <= 8 * s@.len(),
        block_lies(old(cs)@, x as int),
        first <= 64,
        se <= 63,
        0 < unit <= 8192,
    ensures
        (match grown_band(s@, x as int, se as int, unit, old(cs)@, start as int, first as int) {
            Some((after, e)) => r == Some(e as u64) && start <= e <= 8 * s@.len() && final(cs)@ == after,
            None => r is None,
        }),
        final(cs)@.len() == old(cs)@.len(),
{
    let ghost all = grown_band(s@, x as int, se as int, unit, old(cs)@, start as int, first as int);
    assert(cs.len() <= usize::MAX);
    let mut at: u64 = start;
    let mut k: u64 = first;
    while k <= se
        invariant
            s@.len() <= MAX_LEN,
            start <= at <= 8 * s@.len(),
            block_lies(cs@, x as int),
            cs@.len() == old(cs)@.len() <= usize::MAX,
            k <= 64,
            se <= 63,
            0 < unit <= 8192,
            all == grown_band(s@, x as int, se as int, unit, cs@, at as int, k as int),
        decreases 64 - k,
    {
        let c: i16 = cs[x + k as usize];
        if c != 0 {
            if at >= 8 * s.len() as u64 {
                return None;
            }
            let v: i32 = grow(s, at, c, unit);
            if v < -32767 || v > 32767 {
                return None;
            }
            cs.set(x + k as usize, v as i16);
            at = at + 1;
        }
        k = k + 1;
    }
    Some(at)
}

/// The place of the coefficient from `k` on that is zero, after `run` others that
/// are; those between that are not zero have one more bit.
pub open spec fn next_zero(s: Seq<u8>, x: int, se: int, unit: i16, cs: Seq<i16>, at: int, k: int, run: int) -> Option<
    (Seq<i16>, int, int),
>
    decreases 64 - k,
{
    if k > se || k > 63 {
        None
    } else if cs[x + k] == 0 {
        if run <= 0 {
            Some((cs, at, k))
        } else {
            next_zero(s, x, se, unit, cs, at, k + 1, run - 1)
        }
    } else if at >= 8 * s.len() || !fits(grown(cs[x + k], bit(s, at) == 1, unit)) {
        None
    } else {
        next_zero(
            s,
            x,
            se,
            unit,
            cs.update(x + k, grown(cs[x + k], bit(s, at) == 1, unit) as i16),
            at + 1,
            k + 1,
            run,
        )
    }
}

/// Reads up to the coefficient that is zero after `skipped` others that are. Returns
/// where the data end, and the place of the coefficient.
#[verifier::loop_isolation(false)]
fn read_next_zero(
    s: &Vec<u8>,
    x: usize,
    first: u64,
    se: u64,
    unit: i16,
    cs: &mut Vec<i16>,
    start: u64,
    skipped: u64,
) -> (r: Option<(u64, u64)>)
    requires
        s@.len() <= MAX_LEN,
        start <= 8 * s@.len(),
        block_lies(old(cs)@, x as int),
        first <= 64,
        se <= 63,
        0 < unit <= 8192,
    ensures
        (match next_zero(
            s@,
            x as int,
            se as int,
            unit,
            old(cs)@,
            start as int,
            first as int,
            skipped as int,
        ) {
            Some((after, e, k)) => r == Some((e as u64, k as u64)) && start <= e <= 8 * s@.len() && first <= k <= se
                && final(cs)@ == after,
            None => r is None,
        }),
        final(cs)@.len() == old(cs)@.len(),
{
    let ghost all = next_zero(
        s@,
        x as int,
        se as int,
        unit,
        old(cs)@,
        start as int,
        first as int,
        skipped as int,
    );
    assert(cs.len() <= usize::MAX);
    let mut at: u64 = start;
    let mut k: u64 = first;
    let mut run: u64 = skipped;
    while k <= se
        invariant
            s@.len() <= MAX_LEN,
            start <= at <= 8 * s@.len(),
            block_lies(cs@, x as int),
            cs@.len() == old(cs)@.len() <= usize::MAX,
            first <= k <= 64,
            se <= 63,
            0 < unit <= 8192,
            all == next_zero(s@, x as int, se as int, unit, cs@, at as int, k as int, run as int),
        decreases 64 - k,
    {
        let c: i16 = cs[x + k as usize];
        if c == 0 {
            if run == 0 {
                return Some((at, k));
            }
            run = run - 1;
        } else {
            if at >= 8 * s.len() as u64 {
                return None;
            }
            let v: i32 = grow(s, at, c, unit);
            if v < -32767 || v > 32767 {
                return None;
            }
            cs.set(x + k as usize, v as i16);
            at = at + 1;
        }
        k = k + 1;
    }
    None
}

/// The band from coefficient `k` to `se` of the block at `x` after a later scan.
pub open spec fn refined_band(
    b: Seq<u8>,
    s: Seq<u8>,
    t: int,
    x: int,
    se: int,
    unit: i16,
    cs: Seq<i16>,
    at: int,
    k: int,
) -> Band
    decreases 64 - k,
{
    if k > se || k > 63 {
        Some((cs, at, 0))
    } else {
        match symbol_at(b, t, s, at) {
            None => None,
            Some((rs, end)) => {
                let run = rs as int / 16;
                let n = rs as int % 16;
                if n == 0 && run < 15 {
                    if end + run > 8 * s.len() {
                        None
                    } else {
                        match grown_band(s, x, se, unit, cs, end + run, k) {
                            None => None,
                            Some((after, e)) => Some(
                                (after, e, two(run as nat) + bits::bits(s, end, run as nat) - 1),
                            ),
                        }
                    }
                } else if n > 1 || n == 1 && end >= 8 * s.len() {
                    None
                } else {
                    match next_zero(s, x, se, unit, cs, end + n, k, run) {
                        None => None,
                        Some((after, e, place)) => if place < k || place > 63 {
                            None
                        } else if n == 0 {
                            refined_band(b, s, t, x, se, unit, after, e, place + 1)
                        } else {
                            let v = if bit(s, end) == 1 {
                                unit as int
                            } else {
                                -unit
                            };
                            refined_band(b, s, t, x, se, unit, after.update(x + place, v as i16), e, place + 1)
                        },
                    }
                }
            },
        }
    }
}

/// Reads a band of a block in a later scan. Returns where its data end and for how
/// many more blocks there is nothing new.
#[verifier::loop_isolation(false)]
fn read_refined_band(
    b: &[u8],
    s: &Vec<u8>,
    p: Part,
    x: usize,
    ss: u64,
    se: u64,
    unit: i16,
    cs: &mut Vec<i16>,
    start: u64,
) -> (r: Option<(u64, u64)>)
    requires
        readable(b@, s@, start as int),
        part_fits(b@, p),
        block_lies(old(cs)@, x as int),
        1 <= ss <= se <= 63,
        0 < unit <= 8192,
    ensures
        (match refined_band(b@, s@, p.ac as int, x as int, se as int, unit, old(cs)@, start as int, ss as int) {
            Some((after, e, run)) => r == Some((e as u64, run as u64)) && start <= e <= 8 * s@.len() && 0 <= run
                <= 65536 && final(cs)@ == after,
            None => r is None,
        }),
        final(cs)@.len() == old(cs)@.len(),
{
    let ghost all = refined_band(
        b@,
        s@,
        p.ac as int,
        x as int,
        se as int,
        unit,
        old(cs)@,
        start as int,
        ss as int,
    );
    assert(cs.len() <= usize::MAX);
    let mut at: u64 = start;
    let mut k: u64 = ss;
    while k <= se
        invariant
            readable(b@, s@, at as int),
            part_fits(b@, p),
            block_lies(cs@, x as int),
            cs@.len() == old(cs)@.len() <= usize::MAX,
            1 <= ss <= k <= 64,
            se <= 63,
            0 < unit <= 8192,
            start <= at,
            all == refined_band(b@, s@, p.ac as int, x as int, se as int, unit, cs@, at as int, k as int),
        decreases 64 - k,
    {
        match bits::read_symbol(b, p.ac, s, at) {
            None => {
                return None;
            },
            Some((rs, end)) => {
                let run: u64 = (rs / 16) as u64;
                let n: u64 = (rs % 16) as u64;
                if n == 0 && run < 15 {
                    if end + run > 8 * s.len() as u64 {
                        return None;
                    }
                    let blocks: u64 = read_run(s, end, run);
                    return match read_grown_band(s, x, k, se, unit, cs, end + run) {
                        None => None,
                        Some(e) => Some((e, blocks - 1)),
                    };
                }
                if n > 1 || (n == 1 && end >= 8 * s.len() as u64) {
                    return None;
                }
                match read_next_zero(s, x, k, se, unit, cs, end + n, run) {
                    None => {
                        return None;
                    },
                    Some((e, place)) => {
                        if n == 1 {
                            let v: i16 = if bits::bit_at(s, end) == 1 { unit } else { -unit };
                            cs.set(x + place as usize, v);
                        }
                        at = e;
                        k = place + 1;
                    },
                }
            },
        }
    }
    Some((at, 0))
}

/// A band of the block at `x` after a scan, where `run` blocks are left without
/// anything new.
pub open spec fn band(
    b: Seq<u8>,
    s: Seq<u8>,
    t: int,
    x: int,
    ss: int,
    se: int,
    refine: bool,
    al: nat,
    cs: Seq<i16>,
    at: int,
    run: int,
) -> Band {
    if run > 0 {
        if !refine {
            Some((cs, at, run - 1))
        } else {
            match grown_band(s, x, se, two(al) as i16, cs, at, ss) {
                None => None,
                Some((after, e)) => Some((after, e, run - 1)),
            }
        }
    } else if !refine {
        new_band(b, s, t, x, se, al, cs, at, ss)
    } else {
        refined_band(b, s, t, x, se, two(al) as i16, cs, at, ss)
    }
}

/// The coefficients after a scan of a band of one component, from block `m` on, and
/// where its last data start. The data now start at `start` and are read up to
/// `at`; a restart is due after `left` blocks.
pub open spec fn band_scan(
    b: Seq<u8>,
    p: Part,
    ss: int,
    se: int,
    refine: bool,
    al: nat,
    columns: int,
    interval: int,
    cs: Seq<i16>,
    start: int,
    at: int,
    run: int,
    left: int,
    m: int,
    n: int,
) -> Option<(Seq<i16>, int)>
    decreases n - m,
{
    let x = block_place(p, columns, m, 0);
    if m >= n {
        Some((cs, start))
    } else if !block_lies(cs, x) {
        None
    } else {
        match band(b, data_from(b, start), p.ac as int, x, ss, se, refine, al, cs, at, run) {
            None => None,
            Some((after, e, more)) => if left != 1 || m + 1 == n {
                band_scan(
                    b,
                    p,
                    ss,
                    se,
                    refine,
                    al,
                    columns,
                    interval,
                    after,
                    start,
                    e,
                    more,
                    if left > 0 { left - 1 } else { 0 },
                    m + 1,
                    n,
                )
            } else if restarts(b, start) {
                band_scan(
                    b,
                    p,
                    ss,
                    se,
                    refine,
                    al,
                    columns,
                    interval,
                    after,
                    data_end(b, start) + 2,
                    0,
                    0,
                    interval,
                    m + 1,
                    n,
                )
            } else {
                None
            },
        }
    }
}

/// Reads a band of a block. Returns where its data end and for how many more blocks
/// there is nothing new.
fn read_band(
    b: &[u8],
    s: &Vec<u8>,
    p: Part,
    x: usize,
    ss: u64,
    se: u64,
    refine: bool,
    al: u64,
    cs: &mut Vec<i16>,
    at: u64,
    run: u64,
) -> (r: Option<(u64, u64)>)
    requires
        readable(b@, s@, at as int),
        part_fits(b@, p),
        block_lies(old(cs)@, x as int),
        1 <= ss <= se <= 63,
        al <= 13,
        run <= 65536,
    ensures
        (match band(
            b@,
            s@,
            p.ac as int,
            x as int,
            ss as int,
            se as int,
            refine,
            al as nat,
            old(cs)@,
            at as int,
            run as int,
        ) {
            Some((after, e, more)) => r == Some((e as u64, more as u64)) && at <= e <= 8 * s@.len() && 0 <= more
                <= 65536 && final(cs)@ == after,
            None => r is None,
        }),
        final(cs)@.len() == old(cs)@.len(),
{
    if !refine {
        if run > 0 {
            return Some((at, run - 1));
        }
        return read_new_band(b, s, p, x, ss, se, al, cs, at);
    }
    proof {
        lemma_units(al as nat);
    }
    let unit: i16 = power(al) as i16;
    if run > 0 {
        match read_grown_band(s, x, ss, se, unit, cs, at) {
            None => None,
            Some(e) => Some((e, run - 1)),
        }
    } else {
        read_refined_band(b, s, p, x, ss, se, unit, cs, at)
    }
}

/// The units of later scans are small.
proof fn lemma_units(al: nat)
    requires
        al <= 13,
    ensures
        1 <= two(al) <= 8192,
    decreases 13 - al,
{
    reveal_with_fuel(two, 14);
    if al < 13 {
        lemma_units(al + 1);
        assert(two(al + 1) == 2 * two(al));
    }
}

/// Reads a scan of a band of one component. Returns where its last data start.
#[verifier::loop_isolation(false)]
pub fn read_band_scan(
    b: &[u8],
    p: Part,
    ss: u64,
    se: u64,
    refine: bool,
    al: u64,
    columns: u64,
    interval: u64,
    cs: &mut Vec<i16>,
    first: usize,
    n: u64,
) -> (r: Option<usize>)
    requires
        b@.len() <= MAX_LEN,
        first <= b@.len(),
        part_fits(b@, p),
        1 <= ss <= se <= 63,
        al <= 13,
        1 <= columns <= 2048,
        n <= 0x40_0000,
    ensures
        (match band_scan(
            b@,
            p,
            ss as int,
            se as int,
            refine,
            al as nat,
            columns as int,
            interval as int,
            old(cs)@,
            first as int,
            0,
            0,
            interval as int,
            0,
            n as int,
        ) {
            Some((after, start)) => r == Some(start as usize) && first <= start <= b@.len() && final(cs)@ == after,
            None => r is None,
        }),
{
    let ghost all = band_scan(
        b@,
        p,
        ss as int,
        se as int,
        refine,
        al as nat,
        columns as int,
        interval as int,
        old(cs)@,
        first as int,
        0,
        0,
        interval as int,
        0,
        n as int,
    );
    let mut start: usize = first;
    let (mut s, mut end) = bits::take_data(b, start);
    let mut at: u64 = 0;
    let mut run: u64 = 0;
    let mut left: u64 = interval;
    let mut m: u64 = 0;
    while m < n
        invariant
            first <= start <= b@.len() <= MAX_LEN,
            part_fits(b@, p),
            1 <= ss <= se <= 63,
            al <= 13,
            run <= 65536,
            1 <= columns <= 2048,
            m <= n <= 0x40_0000,
            s@ == data_from(b@, start as int),
            end == data_end(b@, start as int),
            start <= end <= b@.len(),
            readable(b@, s@, at as int),
            all == band_scan(
                b@,
                p,
                ss as int,
                se as int,
                refine,
                al as nat,
                columns as int,
                interval as int,
                cs@,
                start as int,
                at as int,
                run as int,
                left as int,
                m as int,
                n as int,
            ),
        decreases n - m,
    {
        let x: u64 = place_block(b, p, columns, m, 0);
        if x > cs.len() as u64 || cs.len() as u64 - x < 64 {
            return None;
        }
        match read_band(b, &s, p, x as usize, ss, se, refine, al, cs, at, run) {
            None => {
                return None;
            },
            Some((e, more)) => {
                at = e;
                run = more;
            },
        }
        if left != 1 || m + 1 == n {
            left = if left > 0 { left - 1 } else { 0 };
        } else {
            if b.len() - end < 2 || b[end + 1] < 0xD0 || b[end + 1] > 0xD7 {
                return None;
            }
            start = end + 2;
            let (next, next_end) = bits::take_data(b, start);
            s = next;
            end = next_end;
            at = 0;
            run = 0;
            left = interval;
        }
        m = m + 1;
    }
    Some(start)
}

} // verus!
