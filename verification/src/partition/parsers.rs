use std::ops::RangeInclusive;

use vstd::prelude::*;
use vstd::string::StringSliceAdditionalSpecFns;

verus! {

/// Whether a byte is an ASCII decimal digit.
pub open spec fn is_digit(b: u8) -> bool {
    48u8 <= b <= 57u8
}

/// The value of a string of decimal digits.
pub open spec fn digits_value(s: Seq<u8>) -> nat
    decreases s.len(),
{
    if s.len() == 0 {
        0
    } else {
        digits_value(s.drop_last()) * 10 + (s.last() - 48) as nat
    }
}

/// The digits of an unsigned number, after an optional leading `+`.
pub open spec fn unsigned_digits(s: Seq<u8>) -> Seq<u8> {
    if s.len() > 0 && s[0] == 43u8 {
        s.skip(1)
    } else {
        s
    }
}

/// Whether `s` is an unsigned decimal number (as Rust's `FromStr` reads it) not above `max`.
pub open spec fn parses_unsigned(s: Seq<u8>, max: nat) -> bool {
    let d = unsigned_digits(s);
    &&& d.len() > 0
    &&& forall|i: int| 0 <= i < d.len() ==> is_digit(#[trigger] d[i])
    &&& digits_value(d) <= max
}

/// The value of an unsigned decimal number.
pub open spec fn unsigned_value(s: Seq<u8>) -> nat {
    digits_value(unsigned_digits(s))
}

/// Index of the first occurrence of `c` in `s`, or `-1`.
pub open spec fn find_byte(s: Seq<u8>, c: u8) -> int
    decreases s.len(),
{
    if s.len() == 0 {
        -1
    } else if s[0] == c {
        0
    } else {
        let r = find_byte(s.skip(1), c);
        if r < 0 {
            -1
        } else {
            r + 1
        }
    }
}

/// The two parts of an interval `lo-hi` (a single number `x` stands for `x-x`).
pub open spec fn interval_parts(s: Seq<u8>) -> (Seq<u8>, Seq<u8>) {
    let p = find_byte(s, 45u8);
    if 0 <= p < s.len() {
        (s.take(p), s.skip(p + 1))
    } else {
        (s, s)
    }
}

/// Whether `s` is an interval of unsigned numbers not above `max`.
pub open spec fn valid_interval(s: Seq<u8>, max: nat) -> bool {
    parses_unsigned(interval_parts(s).0, max) && parses_unsigned(interval_parts(s).1, max)
}

/// The bounds of an interval.
pub open spec fn interval_bounds(s: Seq<u8>) -> (nat, nat) {
    (unsigned_value(interval_parts(s).0), unsigned_value(interval_parts(s).1))
}

/// The numbers `lo, lo + 1, ..., hi` (empty when `lo > hi`).
pub open spec fn range_seq(lo: nat, hi: nat) -> Seq<u32> {
    Seq::new(if lo <= hi { (hi - lo + 1) as nat } else { 0 }, |i: int| (lo + i) as u32)
}

/// Whether `s` is a comma-separated list of intervals of `u32` numbers.
pub open spec fn valid_variables(s: Seq<u8>) -> bool
    decreases s.len(),
{
    let p = find_byte(s, 44u8);
    if 0 <= p < s.len() {
        valid_interval(s.take(p), u32::MAX as nat) && valid_variables(s.skip(p + 1))
    } else {
        valid_interval(s, u32::MAX as nat)
    }
}

/// The numbers listed by a comma-separated list of intervals, in order.
pub open spec fn input_variables(s: Seq<u8>) -> Seq<u32>
    decreases s.len(),
{
    let p = find_byte(s, 44u8);
    if 0 <= p < s.len() {
        range_seq(interval_bounds(s.take(p)).0, interval_bounds(s.take(p)).1) + input_variables(
            s.skip(p + 1),
        )
    } else {
        range_seq(interval_bounds(s).0, interval_bounds(s).1)
    }
}

/// Whether `s` is `base^power` or a plain number, with a value that fits in `usize`.
pub open spec fn valid_maybe_power(s: Seq<u8>) -> bool {
    let p = find_byte(s, 94u8);
    if 0 <= p < s.len() {
        &&& parses_unsigned(s.take(p), usize::MAX as nat)
        &&& parses_unsigned(s.skip(p + 1), u32::MAX as nat)
        &&& vstd::arithmetic::power::pow(
            unsigned_value(s.take(p)) as int,
            unsigned_value(s.skip(p + 1)),
        ) <= usize::MAX
    } else {
        parses_unsigned(s, usize::MAX as nat)
    }
}

/// The value of `base^power` or of a plain number.
pub open spec fn maybe_power_value(s: Seq<u8>) -> int {
    let p = find_byte(s, 94u8);
    if 0 <= p < s.len() {
        vstd::arithmetic::power::pow(unsigned_value(s.take(p)) as int, unsigned_value(s.skip(p + 1)))
    } else {
        unsigned_value(s) as int
    }
}

pub proof fn lemma_digits_prefix(d: Seq<u8>, k: int)
    requires
        0 <= k <= d.len(),
        forall|i: int| 0 <= i < d.len() ==> is_digit(#[trigger] d[i]),
    ensures
        digits_value(d.take(k)) <= digits_value(d),
    decreases d.len() - k,
{
    if k < d.len() {
        lemma_digits_prefix(d, k + 1);
        assert(d.take(k + 1).drop_last() =~= d.take(k));
    } else {
        assert(d.take(k) =~= d);
    }
}

/// `find_byte` gives the first index holding `c`.
proof fn lemma_find_byte(s: Seq<u8>, c: u8, i: int)
    requires
        0 <= i <= s.len(),
        forall|k: int| 0 <= k < i ==> s[k] != c,
    ensures
        i < s.len() && s[i] == c ==> find_byte(s, c) == i,
        i == s.len() ==> find_byte(s, c) == -1,
    decreases i,
{
    if i > 0 {
        lemma_find_byte(s.skip(1), c, i - 1);
    }
}

/// Parses the unsigned number `s[lo..hi]`.
fn parse_unsigned(s: &[u8], lo: usize, hi: usize, max: u64) -> (res: u64)
    requires
        lo <= hi <= s@.len(),
        parses_unsigned(s@.subrange(lo as int, hi as int), max as nat),
    ensures
        res == unsigned_value(s@.subrange(lo as int, hi as int)),
{
    let ghost t = s@.subrange(lo as int, hi as int);
    let mut start = lo;
    if lo < hi && s[lo] == 43u8 {
        start = lo + 1;
    }
    let ghost d = unsigned_digits(t);
    proof {
        assert(d =~= s@.subrange(start as int, hi as int));
        lemma_digits_prefix(d, 0);
    }
    let mut value: u64 = 0;
    let mut i = start;
    while i < hi
        invariant
            lo <= start <= i <= hi <= s@.len(),
            d =~= s@.subrange(start as int, hi as int),
            forall|k: int| 0 <= k < d.len() ==> is_digit(#[trigger] d[k]),
            digits_value(d) <= max,
            value == digits_value(d.take(i - start)),
        decreases hi - i,
    {
        proof {
            lemma_digits_prefix(d, i - start + 1);
            assert(d.take(i - start + 1).drop_last() =~= d.take(i - start));
            assert(d[i - start] == s@[i as int]);
        }
        value = value * 10 + (s[i] - 48u8) as u64;
        i = i + 1;
    }
    proof {
        assert(d.take(hi - start) =~= d);
    }
    value
}

/// Index of the first `c` in `s[lo..hi]`, or `hi`.
fn find_byte_in(s: &[u8], lo: usize, hi: usize, c: u8) -> (res: usize)
    requires
        lo <= hi <= s@.len(),
    ensures
        lo <= res <= hi,
        res == hi ==> find_byte(s@.subrange(lo as int, hi as int), c) == -1,
        res < hi ==> find_byte(s@.subrange(lo as int, hi as int), c) == res - lo,
{
    let ghost t = s@.subrange(lo as int, hi as int);
    let mut i = lo;
    while i < hi
        invariant
            lo <= i <= hi <= s@.len(),
            t == s@.subrange(lo as int, hi as int),
            forall|k: int| 0 <= k < i - lo ==> t[k] != c,
        decreases hi - i,
    {
        if s[i] == c {
            proof {
                lemma_find_byte(t, c, i - lo);
            }
            return i;
        }
        i = i + 1;
    }
    proof {
        lemma_find_byte(t, c, hi - lo);
    }
    hi
}

/// Bounds of the interval `s[lo..hi]`.
fn interval_in(s: &[u8], lo: usize, hi: usize) -> (res: (u32, u32))
    requires
        lo <= hi <= s@.len(),
        valid_interval(s@.subrange(lo as int, hi as int), u32::MAX as nat),
    ensures
        res.0 == interval_bounds(s@.subrange(lo as int, hi as int)).0,
        res.1 == interval_bounds(s@.subrange(lo as int, hi as int)).1,
{
    let ghost t = s@.subrange(lo as int, hi as int);
    let p = find_byte_in(s, lo, hi, 45u8);
    if p < hi {
        proof {
            assert(t.take(p - lo) =~= s@.subrange(lo as int, p as int));
            assert(t.skip(p - lo + 1) =~= s@.subrange(p + 1, hi as int));
        }
        let start = parse_unsigned(s, lo, p, 0xffff_ffffu64) as u32;
        let end = parse_unsigned(s, p + 1, hi, 0xffff_ffffu64) as u32;
        (start, end)
    } else {
        let single = parse_unsigned(s, lo, hi, 0xffff_ffffu64) as u32;
        (single, single)
    }
}

/// Parses an interval `lo-hi`, or a single number `x` (the interval `x-x`).
pub fn parse_interval(input: &str) -> (res: RangeInclusive<u32>)
    requires
        valid_interval(input.spec_bytes(), u32::MAX as nat),
    ensures
        res@.start == interval_bounds(input.spec_bytes()).0,
        res@.end == interval_bounds(input.spec_bytes()).1,
        !res@.exhausted,
{
    let s = input.as_bytes();
    proof {
        assert(s@.subrange(0, s@.len() as int) =~= s@);
    }
    let (start, end) = interval_in(s, 0, s.len());
    RangeInclusive::new(start, end)
}

/// Appends `lo, lo + 1, ..., hi` to `result`.
fn push_range(result: &mut Vec<u32>, lo: u32, hi: u32)
    ensures
        final(result)@ == old(result)@ + range_seq(lo as nat, hi as nat),
{
    let ghost start = old(result)@;
    if lo > hi {
        proof {
            assert(range_seq(lo as nat, hi as nat) =~= Seq::<u32>::empty());
            assert(start + Seq::<u32>::empty() =~= start);
        }
        return;
    }
    let mut x: u64 = lo as u64;
    while x <= hi as u64
        invariant
            lo <= hi,
            lo <= x <= hi as u64 + 1,
            result@ =~= start + Seq::new((x - lo) as nat, |i: int| (lo + i) as u32),
        decreases hi as u64 + 1 - x,
    {
        result.push(x as u32);
        proof {
            assert(Seq::new((x + 1 - lo) as nat, |i: int| (lo + i) as u32) =~= Seq::new(
                (x - lo) as nat,
                |i: int| (lo + i) as u32,
            ).push(x as u32));
        }
        x = x + 1;
    }
    proof {
        assert(range_seq(lo as nat, hi as nat) =~= Seq::new((x - lo) as nat, |i: int| (lo + i) as u32));
    }
}

/// Parses a comma-separated list of intervals and lists their numbers in order.
pub fn parse_input_variables(input: &str) -> (res: Vec<u32>)
    requires
        valid_variables(input.spec_bytes()),
    ensures
        res@ == input_variables(input.spec_bytes()),
{
    let s = input.as_bytes();
    let n = s.len();
    let mut result: Vec<u32> = Vec::new();
    let mut pos: usize = 0;
    proof {
        assert(s@.subrange(0, n as int) =~= s@);
        assert(result@ + input_variables(s@) =~= input_variables(s@));
    }
    loop
        invariant
            n == s@.len(),
            s@ == input.spec_bytes(),
            pos <= n,
            valid_variables(s@.subrange(pos as int, n as int)),
            result@ + input_variables(s@.subrange(pos as int, n as int)) =~= input_variables(s@),
        decreases n - pos,
    {
        let ghost t = s@.subrange(pos as int, n as int);
        let p = find_byte_in(s, pos, n, 44u8);
        if p < n {
            proof {
                assert(t.take(p - pos) =~= s@.subrange(pos as int, p as int));
                assert(t.skip(p - pos + 1) =~= s@.subrange(p + 1, n as int));
            }
            let ghost before = result@;
            let (lo, hi) = interval_in(s, pos, p);
            push_range(&mut result, lo, hi);
            proof {
                let a = range_seq(interval_bounds(t.take(p - pos)).0, interval_bounds(t.take(p - pos)).1);
                assert(input_variables(t) == a + input_variables(t.skip(p - pos + 1)));
                assert(before + (a + input_variables(t.skip(p - pos + 1))) =~= (before + a) + input_variables(t.skip(p - pos + 1)));
            }
            pos = p + 1;
        } else {
            let ghost before = result@;
            let (lo, hi) = interval_in(s, pos, n);
            push_range(&mut result, lo, hi);
            proof {
                assert(input_variables(t) == range_seq(interval_bounds(t).0, interval_bounds(t).1));
                assert(result@ =~= before + input_variables(t));
                assert(result@ =~= input_variables(s@));
                assert(s@ == input.spec_bytes());
            }
            return result;
        }
    }
}

/// Parses `base^power` or a plain number.
pub fn parse_integer_maybe_power(input: &str) -> (res: usize)
    requires
        valid_maybe_power(input.spec_bytes()),
    ensures
        res == maybe_power_value(input.spec_bytes()),
{
    let s = input.as_bytes();
    let n = s.len();
    proof {
        assert(s@.subrange(0, n as int) =~= s@);
    }
    let p = find_byte_in(s, 0, n, 94u8);
    if p < n {
        proof {
            assert(s@.take(p as int) =~= s@.subrange(0, p as int));
            assert(s@.skip(p + 1) =~= s@.subrange(p + 1, n as int));
        }
        let base = parse_unsigned(s, 0, p, usize::MAX as u64) as usize;
        let power = parse_unsigned(s, p + 1, n, 0xffff_ffffu64) as u32;
        checked_pow(base, power)
    } else {
        parse_unsigned(s, 0, n, usize::MAX as u64) as usize
    }
}

/// `base^power`, which must fit in `usize`.
fn checked_pow(base: usize, power: u32) -> (res: usize)
    requires
        vstd::arithmetic::power::pow(base as int, power as nat) <= usize::MAX,
    ensures
        res == vstd::arithmetic::power::pow(base as int, power as nat),
{
    let mut acc: usize = 1;
    let mut i: u32 = 0;
    proof {
        vstd::arithmetic::power::lemma_pow0(base as int);
    }
    while i < power
        invariant
            i <= power,
            acc == vstd::arithmetic::power::pow(base as int, i as nat),
            vstd::arithmetic::power::pow(base as int, power as nat) <= usize::MAX,
        decreases power - i,
    {
        proof {
            vstd::arithmetic::power::lemma_pow_adds(base as int, i as nat, 1);
            vstd::arithmetic::power::lemma_pow1(base as int);
            if base > 0 {
                vstd::arithmetic::power::lemma_pow_increases(base as nat, (i + 1) as nat, power as nat);
            } else {
                assert(acc * base == 0) by (nonlinear_arith)
                    requires
                        base == 0,
                ;
            }
        }
        acc = acc * base;
        i = i + 1;
    }
    acc
}

} // verus!
