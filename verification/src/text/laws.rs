//! What holds of every text.

use crate::text;
use vstd::prelude::*;

verus! {

/// The number that decimal digits stand for.
pub open spec fn value(s: Seq<char>) -> int
    decreases s.len(),
{
    if s.len() == 0 {
        0
    } else {
        value(s.drop_last()) * 10 + (s.last() as int - 48)
    }
}

/// Whether every character is one of the digits `0` to `9`.
pub open spec fn all_digits(s: Seq<char>) -> bool {
    forall|i: int| 0 <= i < s.len() ==> '0' <= #[trigger] s[i] <= '9'
}

/// A decimal number reads back as the number, is made of digits, and has no zero
/// in front.
pub proof fn decimal_reads_back(n: nat)
    ensures
        value(text::decimal(n)) == n,
        all_digits(text::decimal(n)),
        text::decimal(n).len() >= 1,
        n > 0 ==> text::decimal(n)[0] != '0',
        n == 0 ==> text::decimal(n) == seq!['0'],
    decreases n,
{
    let s = text::decimal(n);
    text::lemma_digits(n);
    if n >= 10 {
        decimal_reads_back(n / 10);
        assert(s.drop_last() =~= text::decimal(n / 10));
        assert(s[0] == text::decimal(n / 10)[0]);
    } else {
        reveal_with_fuel(value, 2);
    }
}

/// Two numbers with the same decimal digits are the same.
pub proof fn decimal_tells_numbers_apart(a: nat, b: nat)
    requires
        text::decimal(a) == text::decimal(b),
    ensures
        a == b,
{
    decimal_reads_back(a);
    decimal_reads_back(b);
}

/// Leading zeros do not change a number.
proof fn lemma_zeros(k: nat, s: Seq<char>)
    ensures
        value(Seq::new(k, |i: int| '0') + s) == value(s),
    decreases k + s.len(),
{
    let zeros = Seq::new(k, |i: int| '0');
    if s.len() > 0 {
        lemma_zeros(k, s.drop_last());
        assert((zeros + s).drop_last() =~= zeros + s.drop_last());
    } else if k > 0 {
        lemma_zeros((k - 1) as nat, s);
        assert((zeros + s).drop_last() =~= Seq::new((k - 1) as nat, |i: int| '0') + s);
    } else {
        assert(zeros + s =~= s);
    }
}

/// A padded number reads back as the number, is made of digits, and is at least as
/// wide as asked for; it is no wider than the number needs, unless that is asked
/// for.
pub proof fn padded_reads_back(n: nat, width: nat)
    ensures
        value(text::padded(n, width)) == n,
        all_digits(text::padded(n, width)),
        text::padded(n, width).len() >= width,
        text::padded(n, width).len() > width ==> text::padded(n, width) == text::decimal(n),
{
    let digits = text::decimal(n);
    decimal_reads_back(n);
    if digits.len() < width {
        lemma_zeros((width - digits.len()) as nat, digits);
    }
}

/// Trimming takes white space away from both ends, all of it and nothing else.
pub proof fn trimming_takes_only_space(s: Seq<char>) -> (cut: (int, int))
    ensures
        0 <= cut.0 <= cut.1 <= s.len(),
        text::trimmed(s) == s.subrange(cut.0, cut.1),
        forall|i: int| 0 <= i < cut.0 ==> text::space(#[trigger] s[i]),
        forall|i: int| cut.1 <= i < s.len() ==> text::space(#[trigger] s[i]),
        cut.0 < cut.1 ==> !text::space(s[cut.0]) && !text::space(s[cut.1 - 1]),
{
    let a = lemma_trim_start(s);
    let rest = s.subrange(a, s.len() as int);
    let b = lemma_trim_end(rest);
    assert(rest.subrange(0, b) =~= s.subrange(a, a + b));
    assert forall|i: int| a + b <= i < s.len() implies text::space(#[trigger] s[i]) by {
        assert(rest[i - a] == s[i]);
    }
    if 0 < b {
        assert(rest[0] == s[a] && rest[b - 1] == s[a + b - 1]);
    }
    (a, a + b)
}

proof fn lemma_trim_start(s: Seq<char>) -> (a: int)
    ensures
        0 <= a <= s.len(),
        text::trim_start(s) == s.subrange(a, s.len() as int),
        forall|i: int| 0 <= i < a ==> text::space(#[trigger] s[i]),
        a < s.len() ==> !text::space(s[a]),
    decreases s.len(),
{
    if s.len() > 0 && text::space(s[0]) {
        let rest = s.drop_first();
        let a = lemma_trim_start(rest);
        assert(rest.subrange(a, rest.len() as int) =~= s.subrange(a + 1, s.len() as int));
        assert forall|i: int| 0 <= i < a + 1 implies text::space(#[trigger] s[i]) by {
            if i > 0 {
                assert(rest[i - 1] == s[i]);
            }
        }
        a + 1
    } else {
        assert(s.subrange(0, s.len() as int) =~= s);
        0
    }
}

proof fn lemma_trim_end(s: Seq<char>) -> (b: int)
    ensures
        0 <= b <= s.len(),
        text::trim_end(s) == s.subrange(0, b),
        forall|i: int| b <= i < s.len() ==> text::space(#[trigger] s[i]),
        0 < b ==> !text::space(s[b - 1]),
    decreases s.len(),
{
    if s.len() > 0 && text::space(s.last()) {
        let rest = s.drop_last();
        let b = lemma_trim_end(rest);
        assert(rest.subrange(0, b) =~= s.subrange(0, b));
        assert forall|i: int| b <= i < s.len() implies text::space(#[trigger] s[i]) by {
            if i < s.len() - 1 {
                assert(rest[i] == s[i]);
            }
        }
        b
    } else {
        assert(s.subrange(0, s.len() as int) =~= s);
        s.len() as int
    }
}

/// A pattern is found where it first stands, and not found only where it stands
/// nowhere.
pub proof fn found_is_first(s: Seq<char>, pat: Seq<char>, from: int)
    requires
        0 <= from,
    ensures
        (match text::find_from(s, pat, from) {
            Some(i) => from <= i && i + pat.len() <= s.len() && s.subrange(i, i + pat.len()) == pat && forall|j: int|
                from <= j < i ==> #[trigger] s.subrange(j, j + pat.len()) != pat,
            None => forall|j: int|
                from <= j && j + pat.len() <= s.len() ==> #[trigger] s.subrange(j, j + pat.len()) != pat,
        }),
    decreases s.len() - from + 1,
{
    if from + pat.len() <= s.len() && !text::stands_at(s, pat, from) {
        found_is_first(s, pat, from + 1);
    }
}

/// An ASCII text has one byte for each character, with its code.
pub proof fn ascii_keeps_codes(s: Seq<char>)
    ensures
        text::ascii(s).len() == s.len(),
        forall|i: int|
            0 <= i < s.len() && 0 <= s[i] as int <= 127 ==> #[trigger] text::ascii(s)[i] as int == s[i] as int,
{
}

} // verus!
