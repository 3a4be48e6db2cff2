//! The headers of a JPEG image: the segments that come before the entropy-coded
//! data, and what they say of it.

use vstd::prelude::*;

verus! {

/// The largest width and height that the decoder accepts.
pub const MAX_SIDE: u16 = 16384;

/// The two bytes at `i` as a number.
pub open spec fn number(b: Seq<u8>, i: int) -> int {
    b[i] * 256 + b[i + 1]
}

/// The place of the byte that tells the next marker from `pos` on: it follows
/// 0xFF, and is neither 0xFF nor zero.
pub open spec fn next_marker(b: Seq<u8>, pos: int) -> Option<int>
    decreases b.len() - pos,
{
    if pos + 1 >= b.len() {
        None
    } else if b[pos] == 0xFF && b[pos + 1] != 0xFF && b[pos + 1] != 0 {
        Some(pos + 1)
    } else {
        next_marker(b, pos + 1)
    }
}

/// What the segments before a scan say: where the frame header is, where the
/// Huffman tables and the quantization tables are (zero where there is none),
/// after how many units of a scan a restart is due (zero where none is), and
/// whether there was an Adobe segment, before or after the frame header.
#[verifier::ext_equal]
pub struct Headers {
    pub frame: int,
    pub dc: Seq<usize>,
    pub ac: Seq<usize>,
    pub quantizers: Seq<usize>,
    pub interval: int,
    pub adobe: bool,
    pub late_adobe: bool,
}

/// Whether a number can be a sampling factor.
pub open spec fn is_factor(n: int) -> bool {
    n == 1 || n == 2 || n == 4 || n == 8
}

/// The sampling factors of component `k` in the frame header at `i`: the
/// horizontal one in the upper four bits, the vertical one in the lower four.
pub open spec fn sampling(b: Seq<u8>, i: int, k: int) -> u8 {
    b[i + 11 + 3 * k]
}

/// Which quantization table component `k` in the frame header at `i` uses.
pub open spec fn quantizer(b: Seq<u8>, i: int, k: int) -> u8 {
    b[i + 12 + 3 * k]
}

/// Whether the decoder accepts component `k` in the frame header at `i`.
pub open spec fn component_fits(b: Seq<u8>, i: int, k: int) -> bool {
    is_factor(sampling(b, i, k) as int / 16) && is_factor(sampling(b, i, k) as int % 16) && quantizer(b, i, k) < 4
}

/// Whether a frame header that the decoder accepts stands at `i`: complete, of the
/// length that its one to four components take, with eight bits a sample and with
/// sides within the limit.
pub open spec fn frame_at(b: Seq<u8>, i: int) -> bool {
    &&& 0 <= i
    &&& i + 10 <= b.len()
    &&& 1 <= b[i + 9] <= 4
    &&& i + 10 + 3 * b[i + 9] <= b.len()
    &&& number(b, i + 2) == 8 + 3 * b[i + 9]
    &&& b[i + 4] == 8
    &&& 1 <= number(b, i + 5) <= MAX_SIDE
    &&& 1 <= number(b, i + 7) <= MAX_SIDE
    &&& forall|k: int| 0 <= k < b[i + 9] ==> #[trigger] component_fits(b, i, k)
}

/// The sum of `n` bytes from `p` on.
pub open spec fn sum(b: Seq<u8>, p: int, n: nat) -> int
    decreases n,
{
    if n == 0 {
        0
    } else {
        sum(b, p, (n - 1) as nat) + b[p + n - 1]
    }
}

/// The Huffman tables after those from `pos` to `end`, if they are well formed.
pub open spec fn huffman(b: Seq<u8>, pos: int, end: int, dc: Seq<usize>, ac: Seq<usize>) -> Option<
    (Seq<usize>, Seq<usize>),
>
    decreases end - pos,
{
    let left = end - pos;
    if left <= 0 {
        Some((dc, ac))
    } else if left <= 16 || b[pos] % 16 >= 4 || b[pos] / 16 > 1 {
        None
    } else {
        let n = sum(b, pos + 1, 16);
        let i = b[pos] as int % 16;
        if n < 0 || n > 256 || n > left - 17 {
            None
        } else if b[pos] / 16 == 0 {
            huffman(b, pos + 17 + n, end, dc.update(i, pos as usize), ac)
        } else {
            huffman(b, pos + 17 + n, end, dc, ac.update(i, pos as usize))
        }
    }
}

/// The quantization tables after those from `pos` to `end`, if they are well
/// formed.
pub open spec fn quantizers(b: Seq<u8>, pos: int, end: int, tables: Seq<usize>) -> Option<Seq<usize>>
    decreases end - pos,
{
    if end <= pos {
        Some(tables)
    } else {
        let size = 65 + 64 * (b[pos] as int / 16);
        if b[pos] / 16 > 1 || size > end - pos || b[pos] % 16 >= 4 {
            None
        } else {
            quantizers(b, pos + size, end, tables.update(b[pos] as int % 16, pos as usize))
        }
    }
}

/// Whether the quantization table at `q` lies within the bytes.
pub open spec fn quantizer_fits(b: Seq<u8>, q: int) -> bool {
    0 <= q && q + 65 + 64 * (b[q] as int / 16) <= b.len() && b[q] / 16 <= 1
}

/// The quantizer of coefficient `k`, in the order in which they are stored, by
/// the table at `q`.
pub open spec fn quantum(b: Seq<u8>, q: int, k: int) -> int {
    if b[q] / 16 == 0 {
        b[q + 1 + k] as int
    } else {
        number(b, q + 1 + 2 * k)
    }
}

/// The headers after the segment whose marker is told at `p`, and where the
/// segment ends; none where the decoder refuses it.
pub open spec fn segment(b: Seq<u8>, p: int, hd: Headers) -> Option<(Headers, int)> {
    let m = b[p];
    let q = p + 1;
    let len = number(b, q);
    let end = q + len;
    if m == 0xD9 || m == 0xCC || m == 0xDC || q + 2 > b.len() || len < 2 || end > b.len() {
        None
    } else if 0xC0 <= m <= 0xC2 {
        if hd.frame != 0 || !frame_at(b, p - 1) {
            None
        } else {
            Some((Headers { frame: p - 1, ..hd }, end))
        }
    } else if m == 0xC4 {
        match huffman(b, q + 2, end, hd.dc, hd.ac) {
            Some((dc, ac)) => Some((Headers { dc, ac, ..hd }, end)),
            None => None,
        }
    } else if m == 0xDB {
        match quantizers(b, q + 2, end, hd.quantizers) {
            Some(tables) => Some((Headers { quantizers: tables, ..hd }, end)),
            None => None,
        }
    } else if m == 0xDD {
        if len != 4 {
            None
        } else {
            Some((Headers { interval: number(b, q + 2), ..hd }, end))
        }
    } else if m == 0xEE {
        Some((Headers { adobe: true, late_adobe: hd.late_adobe || hd.frame != 0, ..hd }, end))
    } else if m == 0xE0 && len == 6 && q + 7 <= b.len() {
        // the decoder always reads five bytes of it
        Some((hd, q + 7))
    } else {
        Some((hd, end))
    }
}

/// No headers yet.
pub open spec fn no_headers() -> Headers {
    Headers {
        frame: 0,
        dc: seq![0usize, 0, 0, 0],
        ac: seq![0usize, 0, 0, 0],
        quantizers: seq![0usize, 0, 0, 0],
        interval: 0,
        adobe: false,
        late_adobe: false,
    }
}

/// The headers from `pos` to the first scan, and where that starts; none where
/// the decoder refuses them.
pub open spec fn headers(b: Seq<u8>, pos: int, hd: Headers) -> Option<(Headers, int)>
    decreases b.len() - pos,
{
    match next_marker(b, pos) {
        None => None,
        Some(p) => if p <= pos || p >= b.len() {
            None
        } else if b[p] == 0xDA {
            Some((hd, p - 1))
        } else {
            match segment(b, p, hd) {
                None => None,
                Some((next, end)) => if end <= pos {
                    None
                } else {
                    headers(b, end, next)
                },
            }
        },
    }
}

/// What the segments before a scan say.
pub struct HeaderState {
    pub frame: usize,
    pub dc: Vec<usize>,
    pub ac: Vec<usize>,
    pub quantizers: Vec<usize>,
    pub interval: u16,
    pub adobe: bool,
    pub late_adobe: bool,
}

impl View for HeaderState {
    type V = Headers;

    open spec fn view(&self) -> Headers {
        Headers {
            frame: self.frame as int,
            dc: self.dc@,
            ac: self.ac@,
            quantizers: self.quantizers@,
            interval: self.interval as int,
            adobe: self.adobe,
            late_adobe: self.late_adobe,
        }
    }
}

impl Headers {
    /// The headers speak of places within the bytes.
    pub open spec fn wf(self, b: Seq<u8>) -> bool {
        &&& self.dc.len() == 4
        &&& self.ac.len() == 4
        &&& self.quantizers.len() == 4
        &&& self.frame != 0 ==> frame_at(b, self.frame)
        &&& forall|i: int| 0 <= i < 4 ==> #[trigger] self.dc[i] < b.len()
        &&& forall|i: int| 0 <= i < 4 ==> #[trigger] self.ac[i] < b.len()
        &&& forall|i: int|
            0 <= i < 4 ==> self.quantizers[i] == 0 || quantizer_fits(b, #[trigger] self.quantizers[i] as int)
    }
}

/// The two bytes at `i` as a number.
pub fn number_at(b: &[u8], i: usize) -> (r: u16)
    requires
        i + 1 < b@.len(),
    ensures
        r == number(b@, i as int),
{
    b[i] as u16 * 256 + b[i + 1] as u16
}

/// The place of the byte that tells the next marker from `pos` on.
pub fn find_marker(b: &[u8], pos: usize) -> (r: Option<usize>)
    requires
        pos <= b@.len(),
    ensures
        (match next_marker(b@, pos as int) {
            Some(p) => r == Some(p as usize) && pos < p < b@.len() && b@[p - 1] == 0xFF,
            None => r is None,
        }),
{
    let mut i: usize = pos;
    while i < b.len() && b.len() - i >= 2
        invariant
            pos <= i <= b@.len(),
            next_marker(b@, pos as int) == next_marker(b@, i as int),
        decreases b@.len() - i,
    {
        if b[i] == 0xFF && b[i + 1] != 0xFF && b[i + 1] != 0 {
            return Some(i + 1);
        }
        i = i + 1;
    }
    None
}

/// Whether a number can be a sampling factor.
fn factor(n: u8) -> (r: bool)
    ensures
        r == is_factor(n as int),
{
    n == 1 || n == 2 || n == 4 || n == 8
}

/// Whether a frame header that the decoder accepts stands at `i`.
fn is_frame(b: &[u8], i: usize) -> (r: bool)
    requires
        i < b@.len(),
    ensures
        r == frame_at(b@, i as int),
{
    let rest: usize = b.len() - i;
    if rest < 10 {
        return false;
    }
    let n: u8 = b[i + 9];
    if n < 1 || n > 4 || rest < 10 + 3 * n as usize {
        return false;
    }
    let (height, width): (u16, u16) = (number_at(b, i + 5), number_at(b, i + 7));
    if number_at(b, i + 2) != 8 + 3 * n as u16 || b[i + 4] != 8 || height < 1 || height > MAX_SIDE || width < 1
        || width > MAX_SIDE {
        return false;
    }
    let mut k: usize = 0;
    while k < n as usize
        invariant
            k <= n <= 4,
            n == b@[i + 9],
            i + 10 + 3 * n <= b@.len() <= usize::MAX,
            forall|c: int| 0 <= c < k ==> #[trigger] component_fits(b@, i as int, c),
        decreases n - k,
    {
        let s: u8 = b[i + 11 + 3 * k];
        if !factor(s / 16) || !factor(s % 16) || b[i + 12 + 3 * k] >= 4 {
            assert(!component_fits(b@, i as int, k as int));
            return false;
        }
        k = k + 1;
    }
    true
}

/// The sum of 16 bytes from `p` on.
fn sum16(b: &[u8], p: usize) -> (r: usize)
    requires
        p + 16 <= b@.len(),
    ensures
        r == sum(b@, p as int, 16),
        r <= 16 * 255,
{
    assert(b.len() <= usize::MAX);
    let mut r: usize = 0;
    let mut i: usize = 0;
    while i < 16
        invariant
            i <= 16,
            p + 16 <= b@.len() <= usize::MAX,
            r == sum(b@, p as int, i as nat),
            r <= i * 255,
        decreases 16 - i,
    {
        r = r + b[p + i] as usize;
        i = i + 1;
    }
    r
}

impl HeaderState {
    /// No headers yet.
    pub fn new() -> (r: HeaderState)
        ensures
            r@ == no_headers(),
    {
        HeaderState {
            frame: 0,
            dc: vec![0, 0, 0, 0],
            ac: vec![0, 0, 0, 0],
            quantizers: vec![0, 0, 0, 0],
            interval: 0,
            adobe: false,
            late_adobe: false,
        }
    }

    /// Takes up the Huffman tables from `start` to `end`.
    fn take_huffman(&mut self, b: &[u8], start: usize, end: usize) -> (r: bool)
        requires
            old(self)@.wf(b@),
            0 < start <= end <= b@.len(),
        ensures
            (match huffman(b@, start as int, end as int, old(self)@.dc, old(self)@.ac) {
                Some((dc, ac)) => r && final(self)@ == (Headers { dc, ac, ..old(self)@ }),
                None => !r,
            }),
            final(self)@.wf(b@),
    {
        let mut pos: usize = start;
        while pos < end
            invariant
                0 < start <= pos <= end <= b@.len(),
                self@.wf(b@),
                self@ == (Headers { dc: self@.dc, ac: self@.ac, ..old(self)@ }),
                huffman(b@, start as int, end as int, old(self)@.dc, old(self)@.ac) == huffman(
                    b@,
                    pos as int,
                    end as int,
                    self@.dc,
                    self@.ac,
                ),
            decreases end - pos,
        {
            let left: usize = end - pos;
            let i: usize = (b[pos] % 16) as usize;
            if left <= 16 || i >= 4 || b[pos] / 16 > 1 {
                return false;
            }
            let n: usize = sum16(b, pos + 1);
            if n > 256 || n > left - 17 {
                return false;
            }
            if b[pos] / 16 == 0 {
                self.dc.set(i, pos);
            } else {
                self.ac.set(i, pos);
            }
            pos = pos + 17 + n;
        }
        true
    }

    /// Takes up the quantization tables from `start` to `end`.
    fn take_quantizers(&mut self, b: &[u8], start: usize, end: usize) -> (r: bool)
        requires
            old(self)@.wf(b@),
            0 < start <= end <= b@.len(),
        ensures
            (match quantizers(b@, start as int, end as int, old(self)@.quantizers) {
                Some(tables) => r && final(self)@ == (Headers { quantizers: tables, ..old(self)@ }),
                None => !r,
            }),
            final(self)@.wf(b@),
    {
        let mut pos: usize = start;
        while pos < end
            invariant
                0 < start <= pos <= end <= b@.len(),
                self@.wf(b@),
                self@ == (Headers { quantizers: self@.quantizers, ..old(self)@ }),
                quantizers(b@, start as int, end as int, old(self)@.quantizers) == quantizers(
                    b@,
                    pos as int,
                    end as int,
                    self@.quantizers,
                ),
            decreases end - pos,
        {
            let wide: u8 = b[pos] / 16;
            let i: usize = (b[pos] % 16) as usize;
            let size: usize = 65 + 64 * wide as usize;
            if wide > 1 || size > end - pos || i >= 4 {
                return false;
            }
            self.quantizers.set(i, pos);
            pos = pos + size;
        }
        true
    }

    /// Takes up the segment whose marker is told at `p`. Returns where it ends, if
    /// the decoder does not refuse it.
    pub fn take(&mut self, b: &[u8], p: usize) -> (r: Option<usize>)
        requires
            old(self)@.wf(b@),
            1 < p < b@.len(),
            b@[p - 1] == 0xFF,
        ensures
            (match segment(b@, p as int, old(self)@) {
                Some((hd, end)) => r == Some(end as usize) && p < end <= b@.len() && final(self)@ == hd,
                None => r is None,
            }),
            final(self)@.wf(b@),
    {
        let m: u8 = b[p];
        if m == 0xD9 || m == 0xCC || m == 0xDC || b.len() - p < 3 {
            return None;
        }
        let q: usize = p + 1;
        let len: usize = number_at(b, q) as usize;
        if len < 2 || b.len() - q < len {
            return None;
        }
        let end: usize = q + len;
        if 0xC0 <= m && m <= 0xC2 {
            if self.frame != 0 || !is_frame(b, p - 1) {
                return None;
            }
            self.frame = p - 1;
        } else if m == 0xC4 {
            if !self.take_huffman(b, q + 2, end) {
                return None;
            }
        } else if m == 0xDB {
            if !self.take_quantizers(b, q + 2, end) {
                return None;
            }
        } else if m == 0xDD {
            if len != 4 {
                return None;
            }
            self.interval = number_at(b, q + 2);
        } else if m == 0xEE {
            self.adobe = true;
            self.late_adobe = self.late_adobe || self.frame != 0;
        } else if m == 0xE0 && len == 6 && b.len() - q >= 7 {
            return Some(q + 7);
        }
        Some(end)
    }

    /// Takes up the segments up to the first scan. Returns where that starts, if
    /// the decoder does not refuse them.
    pub fn take_all(&mut self, b: &[u8]) -> (r: Option<usize>)
        requires
            old(self)@.wf(b@),
            b@.len() >= 2,
        ensures
            (match headers(b@, 2, old(self)@) {
                Some((hd, scan)) => r == Some(scan as usize) && 0 < scan && scan + 1 < b@.len() && final(self)@ == hd,
                None => r is None,
            }),
            final(self)@.wf(b@),
    {
        let mut pos: usize = 2;
        loop
            invariant
                2 <= pos <= b@.len(),
                self@.wf(b@),
                headers(b@, 2, old(self)@) == headers(b@, pos as int, self@),
            decreases b@.len() - pos,
        {
            let p: usize = match find_marker(b, pos) {
                Some(p) => p,
                None => {
                    return None;
                },
            };
            if b[p] == 0xDA {
                return Some(p - 1);
            }
            match self.take(b, p) {
                Some(end) => {
                    pos = end;
                },
                None => {
                    return None;
                },
            }
        }
    }
}

} // verus!
