//! Entropy-coded data: where it ends, the bits in it, and the Huffman codes and
//! numbers that the bits stand for.

use vstd::prelude::*;

verus! {

/// The first place from `p` on where a byte 0xFF is not followed by a zero: there
/// a marker ends the entropy-coded data.
pub open spec fn data_end(b: Seq<u8>, p: int) -> int
    decreases b.len() - p,
{
    if p >= b.len() {
        b.len() as int
    } else if b[p] == 0xFF && (p + 1 >= b.len() || b[p + 1] != 0) {
        p
    } else {
        data_end(b, p + 1)
    }
}

/// The entropy-coded bytes from `p` to `e`: a zero after 0xFF is left out.
pub open spec fn data(b: Seq<u8>, p: int, e: int) -> Seq<u8>
    decreases e - p,
{
    if e <= p {
        seq![]
    } else if e - 2 >= p && b[e - 2] == 0xFF && b[e - 1] == 0 {
        data(b, p, e - 1)
    } else {
        data(b, p, e - 1).push(b[e - 1])
    }
}

/// The entropy-coded bytes from `p` to the next marker.
pub open spec fn data_from(b: Seq<u8>, p: int) -> Seq<u8> {
    data(b, p, data_end(b, p))
}

/// There are no more entropy-coded bytes than bytes.
pub proof fn lemma_data_len(b: Seq<u8>, p: int, e: int)
    requires
        p <= e,
    ensures
        data(b, p, e).len() <= e - p,
    decreases e - p,
{
    if e > p {
        lemma_data_len(b, p, e - 1);
    }
}

/// Where the data from `p` on ends.
pub proof fn lemma_data_end(b: Seq<u8>, p: int)
    requires
        0 <= p <= b.len(),
    ensures
        p <= data_end(b, p) <= b.len(),
    decreases b.len() - p,
{
    if p < b.len() {
        lemma_data_end(b, p + 1);
    }
}

/// The entropy-coded bytes from `p` to the next marker, and where that is.
pub fn take_data(b: &[u8], p: usize) -> (r: (Vec<u8>, usize))
    requires
        p <= b@.len(),
    ensures
        r.0@ == data_from(b@, p as int),
        r.1 == data_end(b@, p as int),
        r.0@.len() <= b@.len(),
        p <= r.1 <= b@.len(),
{
    let mut s: Vec<u8> = Vec::new();
    let mut e: usize = p;
    while e < b.len() && !(b[e] == 0xFF && (b.len() - e < 2 || b[e + 1] != 0))
        invariant
            p <= e <= b@.len(),
            data_end(b@, p as int) == data_end(b@, e as int),
            s@ == data(b@, p as int, e as int),
        decreases b@.len() - e,
    {
        if !(e - p >= 1 && b[e - 1] == 0xFF && b[e] == 0) {
            s.push(b[e]);
        }
        e = e + 1;
    }
    proof {
        lemma_data_len(b@, p as int, e as int);
    }
    (s, e)
}

/// Where the data from `p` on end.
pub fn find_end(b: &[u8], p: usize) -> (r: usize)
    requires
        p <= b@.len(),
    ensures
        r == data_end(b@, p as int),
        p <= r <= b@.len(),
{
    let mut e: usize = p;
    while e < b.len() && !(b[e] == 0xFF && (b.len() - e < 2 || b[e + 1] != 0))
        invariant
            p <= e <= b@.len(),
            data_end(b@, p as int) == data_end(b@, e as int),
        decreases b@.len() - e,
    {
        e = e + 1;
    }
    e
}

/// The bit at `at`, counted from the highest one of the first byte.
pub open spec fn bit(s: Seq<u8>, at: int) -> int {
    ((s[at / 8] >> ((7 - at % 8) as usize)) & 1) as int
}

/// The bit at `at`.
pub fn bit_at(s: &Vec<u8>, at: u64) -> (r: u32)
    requires
        at < 8 * s@.len(),
    ensures
        r == bit(s@, at as int),
        r <= 1,
{
    assert(s.len() <= usize::MAX && at / 8 < s@.len());
    let byte: u8 = s[(at / 8) as usize];
    let shift: usize = (7 - at % 8) as usize;
    let r: u8 = (byte >> shift) & 1;
    assert((byte >> shift) & 1 <= 1) by (bit_vector);
    r as u32
}

/// `2` to the power of `n`.
pub open spec fn two(n: nat) -> nat
    decreases n,
{
    if n == 0 {
        1
    } else {
        2 * two((n - 1) as nat)
    }
}

/// Powers up to the 16th.
pub proof fn lemma_two(n: nat)
    requires
        n <= 16,
    ensures
        1 <= two(n) <= 65536,
        n <= 15 ==> two(n) <= 32768,
    decreases 16 - n,
{
    reveal_with_fuel(two, 17);
    if n < 15 {
        lemma_two(n + 1);
        assert(two(n + 1) == 2 * two(n));
    }
}

/// The symbol of the Huffman table at `t` whose code starts at `at`, and where
/// the code ends.
///
/// The byte at `t` says which table it is; 16 bytes with the number of codes of
/// each length and the symbols follow. `len` is the length of the code so far,
/// with the next bit; `gap` is by how much the code passes the codes of its
/// length, and `index` how many codes are shorter.
pub open spec fn symbol(b: Seq<u8>, t: int, s: Seq<u8>, at: int, len: int, gap: int, index: int) -> Option<(u8, int)>
    decreases 17 - len,
{
    if len > 16 || at >= 8 * s.len() || t + len >= b.len() {
        None
    } else {
        let d = 2 * gap + bit(s, at);
        let n = b[t + len] as int;
        if d >= n {
            symbol(b, t, s, at + 1, len + 1, d - n, index + n)
        } else if t + 17 + index + d < b.len() {
            Some((b[t + 17 + index + d], at + 1))
        } else {
            None
        }
    }
}

/// The symbol of the Huffman table at `t` whose code starts at `at`.
pub open spec fn symbol_at(b: Seq<u8>, t: int, s: Seq<u8>, at: int) -> Option<(u8, int)> {
    symbol(b, t, s, at, 1, 0, 0)
}

/// The symbol whose code starts at `at`, and where the code ends.
pub fn read_symbol(b: &[u8], t: usize, s: &Vec<u8>, at: u64) -> (r: Option<(u8, u64)>)
    requires
        t < b@.len(),
        b@.len() <= MAX_LEN,
        s@.len() <= b@.len(),
        at <= 8 * s@.len(),
    ensures
        (match symbol_at(b@, t as int, s@, at as int) {
            Some((v, end)) => r == Some((v, end as u64)) && at < end <= 8 * s@.len(),
            None => r is None,
        }),
{
    let total: u64 = 8 * s.len() as u64;
    assert(b.len() <= usize::MAX);
    let mut i: u64 = at;
    let mut len: usize = 1;
    let mut gap: u32 = 0;
    let mut index: u32 = 0;
    while len <= 16 && i < total && b.len() - t > len
        invariant
            t < b@.len() <= MAX_LEN,
            b@.len() <= usize::MAX,
            s@.len() <= b@.len(),
            total == 8 * s@.len(),
            at <= i <= total,
            1 <= len <= 17,
            i - at == len - 1,
            gap < two((len - 1) as nat),
            index <= 255 * (len - 1),
            symbol_at(b@, t as int, s@, at as int) == symbol(
                b@,
                t as int,
                s@,
                i as int,
                len as int,
                gap as int,
                index as int,
            ),
        decreases 17 - len,
    {
        proof {
            lemma_two((len - 1) as nat);
        }
        let d: u32 = 2 * gap + bit_at(s, i);
        let n: u32 = b[t + len] as u32;
        if d < n {
            let place: usize = 17 + index as usize + d as usize;
            if b.len() - t > place {
                return Some((b[t + place], i + 1));
            }
            return None;
        }
        gap = d - n;
        index = index + n;
        i = i + 1;
        len = len + 1;
    }
    None
}

/// The `n` bits from `at` on, as a number.
pub open spec fn bits(s: Seq<u8>, at: int, n: nat) -> nat
    decreases n,
{
    if n == 0 {
        0
    } else {
        (2 * bits(s, at, (n - 1) as nat) + bit(s, at + n - 1)) as nat
    }
}

/// The `n` bits from `at` on, as a number.
pub fn read_bits(s: &Vec<u8>, at: u64, n: u64) -> (r: u32)
    requires
        n <= 15,
        at + n <= 8 * s@.len(),
        8 * s@.len() <= u64::MAX,
    ensures
        r == bits(s@, at as int, n as nat),
        r < two(n as nat),
{
    let mut v: u32 = 0;
    let mut i: u64 = 0;
    while i < n
        invariant
            i <= n <= 15,
            at + n <= 8 * s@.len() <= u64::MAX,
            v == bits(s@, at as int, i as nat),
            v < two(i as nat),
        decreases n - i,
    {
        proof {
            lemma_two(i as nat);
        }
        v = 2 * v + bit_at(s, at + i);
        i = i + 1;
    }
    v
}

/// The number that `n` bits from `at` on stand for: those that start with a zero
/// are negative.
pub open spec fn amplitude(s: Seq<u8>, at: int, n: nat) -> Option<int> {
    if at + n > 8 * s.len() {
        None
    } else if 2 * bits(s, at, n) < two(n) {
        Some(bits(s, at, n) - two(n) + 1)
    } else {
        Some(bits(s, at, n) as int)
    }
}

/// The number that `n` bits from `at` on stand for.
pub fn read_amplitude(s: &Vec<u8>, at: u64, n: u64) -> (r: Option<i32>)
    requires
        n <= 15,
        at <= 8 * s@.len(),
        s@.len() <= MAX_LEN,
    ensures
        (match amplitude(s@, at as int, n as nat) {
            Some(v) => r == Some(v as i32) && -32767 <= v <= 32767 && at + n <= 8 * s@.len(),
            None => r is None,
        }),
{
    if at + n > 8 * s.len() as u64 {
        return None;
    }
    let v: u32 = read_bits(s, at, n);
    let mut power: u32 = 1;
    let mut i: u64 = 0;
    while i < n
        invariant
            i <= n <= 15,
            power == two(i as nat),
        decreases n - i,
    {
        proof {
            lemma_two(i as nat);
        }
        power = 2 * power;
        i = i + 1;
    }
    proof {
        lemma_two(n as nat);
    }
    if 2 * v < power {
        Some(v as i32 - power as i32 + 1)
    } else {
        Some(v as i32)
    }
}

/// The largest number of bytes whose bits can be counted in 64 bits.
pub const MAX_LEN: u64 = 0x0fff_ffff_ffff_ffff;

/// Bits that start with a one stand for themselves, and others for the number below
/// zero whose bits are the opposite: `n` bits tell the numbers apart whose size has
/// `n` bits.
pub proof fn amplitudes_have_their_size(s: Seq<u8>, at: int, n: nat)
    requires
        1 <= n,
        at + n <= 8 * s.len(),
        bits(s, at, n) < two(n),
    ensures
        (match amplitude(s, at, n) {
            Some(v) => if v > 0 {
                two(n) <= 2 * v < 2 * two(n) && v == bits(s, at, n)
            } else {
                two(n) <= -2 * v < 2 * two(n) && v + two(n) - 1 == bits(s, at, n)
            },
            None => false,
        }),
{
    assert(two(n) == 2 * two((n - 1) as nat));
}

} // verus!
