use vstd::prelude::*;
use vstd::string::StringSliceAdditionalSpecFns;

use crate::lit::{external_code, Lit};
use crate::partition::parsers::{digits_value, is_digit, lemma_digits_prefix};

verus! {

broadcast use crate::lit::Lit::lemma_from_code_view;

/// Whether a byte is ASCII white space (space, tab, line feed, vertical tab, form feed,
/// carriage return).
pub open spec fn is_space(b: u8) -> bool {
    b == 32u8 || (9u8 <= b && b <= 13u8)
}

/// The number of leading bytes of `s` that are not white space.
pub open spec fn word_len(s: Seq<u8>) -> nat
    decreases s.len(),
{
    if s.len() == 0 || is_space(s[0]) {
        0
    } else {
        1 + word_len(s.skip(1))
    }
}

/// The white-space separated words of `s`, in order.
pub open spec fn words(s: Seq<u8>) -> Seq<Seq<u8>>
    decreases s.len(),
{
    if s.len() == 0 {
        Seq::empty()
    } else if is_space(s[0]) {
        words(s.skip(1))
    } else {
        let n = word_len(s);
        if 0 < n <= s.len() {
            seq![s.take(n as int)] + words(s.skip(n as int))
        } else {
            Seq::empty()
        }
    }
}

/// The sign and digits of a signed decimal number.
pub open spec fn signed_parts(t: Seq<u8>) -> (bool, Seq<u8>) {
    if t.len() > 0 && t[0] == 45u8 {
        (true, t.skip(1))
    } else if t.len() > 0 && t[0] == 43u8 {
        (false, t.skip(1))
    } else {
        (false, t)
    }
}

/// Whether `t` is a decimal `i32` as Rust's `FromStr` reads it: an optional sign, then
/// at least one digit, the value in range.
pub open spec fn parses_i32(t: Seq<u8>) -> bool {
    let (neg, d) = signed_parts(t);
    &&& d.len() > 0
    &&& forall|i: int| 0 <= i < d.len() ==> is_digit(#[trigger] d[i])
    &&& digits_value(d) <= (if neg { 0x8000_0000nat } else { 0x7fff_ffffnat })
}

/// The value of a decimal `i32`.
pub open spec fn i32_value(t: Seq<u8>) -> int {
    let (neg, d) = signed_parts(t);
    if neg {
        -(digits_value(d) as int)
    } else {
        digits_value(d) as int
    }
}

/// The length of the Unicode white space other than ASCII at the start of `s` in UTF-8
/// (next line, no-break space, ogham space mark, the spaces from en quad to hair space, line
/// and paragraph separators, narrow no-break space, medium mathematical space, ideographic
/// space), or 0.
pub open spec fn wide_space_len(s: Seq<u8>) -> nat {
    if s.len() >= 2 && s[0] == 0xC2u8 && (s[1] == 0x85u8 || s[1] == 0xA0u8) {
        2
    } else if s.len() >= 3 && s[0] == 0xE1u8 && s[1] == 0x9Au8 && s[2] == 0x80u8 {
        3
    } else if s.len() >= 3 && s[0] == 0xE2u8 && s[1] == 0x80u8 && ((0x80u8 <= s[2] && s[2] <= 0x8Au8) || s[2] == 0xA8u8 || s[2]
        == 0xA9u8 || s[2] == 0xAFu8) {
        3
    } else if s.len() >= 3 && s[0] == 0xE2u8 && s[1] == 0x81u8 && s[2] == 0x9Fu8 {
        3
    } else if s.len() >= 3 && s[0] == 0xE3u8 && s[1] == 0x80u8 && s[2] == 0x80u8 {
        3
    } else {
        0
    }
}

/// `s` with each white space character other than ASCII replaced by an ASCII space.
pub open spec fn ascii_spaces(s: Seq<u8>) -> Seq<u8>
    decreases s.len(),
{
    if s.len() == 0 {
        Seq::empty()
    } else if wide_space_len(s) > 0 {
        seq![32u8] + ascii_spaces(s.skip(wide_space_len(s) as int))
    } else {
        seq![s[0]] + ascii_spaces(s.skip(1))
    }
}

/// Whether `s` is a DIMACS clause line: white-space (Unicode white space) separated
/// numbers ending with `0`, the others non-zero.
pub open spec fn valid_clause_line(s: Seq<u8>) -> bool {
    valid_clause_words(ascii_spaces(s))
}

/// The literals of a DIMACS clause line (the numbers before the final `0`).
pub open spec fn clause_line_lits(s: Seq<u8>) -> Seq<Lit> {
    clause_words_lits(ascii_spaces(s))
}

/// Whether the ASCII-white-space separated words of `s` are numbers ending with `0`, the
/// others non-zero.
pub open spec fn valid_clause_words(s: Seq<u8>) -> bool {
    let w = words(s);
    &&& w.len() >= 1
    &&& forall|k: int| 0 <= k < w.len() ==> parses_i32(#[trigger] w[k])
    &&& i32_value(w.last()) == 0
    &&& forall|k: int| 0 <= k < w.len() - 1 ==> i32_value(#[trigger] w[k]) != 0
}

/// The literals of the numbers of `s` before the final `0`.
pub open spec fn clause_words_lits(s: Seq<u8>) -> Seq<Lit> {
    let w = words(s);
    Seq::new((w.len() - 1) as nat, |k: int| Lit::spec_from_code(external_code(i32_value(w[k]) as i32)))
}

/// The length of the word at the start of `s[lo..]`.
proof fn lemma_word_len_bound(s: Seq<u8>)
    ensures
        word_len(s) <= s.len(),
    decreases s.len(),
{
    if s.len() > 0 && !is_space(s[0]) {
        lemma_word_len_bound(s.skip(1));
    }
}

/// The word at `s[lo..]` ends at the first white space from `lo` on.
proof fn lemma_word_len_at(s: Seq<u8>, lo: int, hi: int)
    requires
        0 <= lo <= hi <= s.len(),
        forall|k: int| lo <= k < hi ==> !is_space(#[trigger] s[k]),
        hi == s.len() || is_space(s[hi]),
    ensures
        word_len(s.skip(lo)) == hi - lo,
    decreases hi - lo,
{
    if lo < hi {
        lemma_word_len_at(s, lo + 1, hi);
        assert(s.skip(lo).skip(1) =~= s.skip(lo + 1));
    }
}

/// Reads the decimal `i32` `s[lo..hi]`, or `None` if it is not one.
fn parse_i32_word(s: &[u8], lo: usize, hi: usize) -> (res: Option<i32>)
    requires
        lo <= hi <= s@.len(),
    ensures
        res is Some <==> parses_i32(s@.subrange(lo as int, hi as int)),
        res matches Some(v) ==> v == i32_value(s@.subrange(lo as int, hi as int)),
{
    let ghost t = s@.subrange(lo as int, hi as int);
    let mut start = lo;
    let mut neg = false;
    if lo < hi && s[lo] == 45u8 {
        start = lo + 1;
        neg = true;
    } else if lo < hi && s[lo] == 43u8 {
        start = lo + 1;
    }
    let ghost d = signed_parts(t).1;
    proof {
        assert(d =~= s@.subrange(start as int, hi as int));
        assert(neg == signed_parts(t).0);
    }
    if start == hi {
        return None;
    }
    let bound: u64 = if neg { 0x8000_0000 } else { 0x7fff_ffff };
    let mut value: u64 = 0;
    let mut i = start;
    while i < hi
        invariant
            lo <= start < hi <= s@.len(),
            start <= i <= hi,
            d =~= s@.subrange(start as int, hi as int),
            forall|k: int| 0 <= k < i - start ==> is_digit(#[trigger] d[k]),
            value == digits_value(d.take(i - start)),
            value <= bound,
            bound == (if neg { 0x8000_0000nat } else { 0x7fff_ffffnat }),
            t == s@.subrange(lo as int, hi as int),
            d == signed_parts(t).1,
            neg == signed_parts(t).0,
        decreases hi - i,
    {
        let b = s[i];
        proof {
            assert(d[i - start] == s@[i as int]);
            assert(d.take(i - start + 1).drop_last() =~= d.take(i - start));
        }
        if b < 48u8 || b > 57u8 {
            proof {
                assert(!is_digit(d[i - start]));
            }
            return None;
        }
        let next = value * 10 + (b - 48u8) as u64;
        if next > bound {
            proof {
                if forall|k: int| 0 <= k < d.len() ==> is_digit(#[trigger] d[k]) {
                    lemma_digits_prefix(d, i - start + 1);
                    assert(digits_value(d.take(i - start + 1)) == value * 10 + (b - 48));
                }
            }
            return None;
        }
        value = next;
        i = i + 1;
    }
    proof {
        assert(d.take(hi - start) =~= d);
    }
    if neg {
        Some((0i64 - value as i64) as i32)
    } else {
        Some(value as i32)
    }
}

/// Reads a DIMACS clause line: white-space separated numbers ending with `0`. The line must
/// be such a clause (see [`read_dimacs_clause`] for a reader that checks it); the result is
/// the literals of the numbers before the `0`.
pub fn parse_dimacs_clause(line: &str) -> (res: Vec<Lit>)
    requires
        valid_clause_line(line.spec_bytes()),
    ensures
        res@ == clause_line_lits(line.spec_bytes()),
{
    match read_dimacs_clause(line) {
        Some(lits) => lits,
        None => {
            proof {
                assert(false);
            }
            Vec::new()
        },
    }
}

/// Reads a DIMACS clause line: white-space separated numbers ending with `0`. Returns the
/// literals of the numbers before the `0`, or `None` if the line is not such a clause (a
/// word that is not an `i32`, no final `0`, or a `0` before the end).
pub fn read_dimacs_clause(line: &str) -> (res: Option<Vec<Lit>>)
    ensures
        res is Some <==> valid_clause_line(line.spec_bytes()),
        res matches Some(v) ==> v@ == clause_line_lits(line.spec_bytes()),
{
    read_clause_line(line.as_bytes())
}

/// The length of the white space other than ASCII at `s[i..]` (see [`wide_space_len`]).
fn wide_space_at(s: &[u8], i: usize) -> (res: usize)
    requires
        i < s@.len(),
    ensures
        res == wide_space_len(s@.skip(i as int)),
{
    let ghost t = s@.skip(i as int);
    let n = s.len() - i;
    proof {
        assert(t.len() == n);
        assert(t[0] == s@[i as int]);
        if n >= 2 {
            assert(t[1] == s@[i + 1]);
        }
        if n >= 3 {
            assert(t[2] == s@[i + 2]);
        }
    }
    let b0 = s[i];
    if n >= 2 && b0 == 0xC2u8 && (s[i + 1] == 0x85u8 || s[i + 1] == 0xA0u8) {
        2
    } else if n >= 3 && b0 == 0xE1u8 && s[i + 1] == 0x9Au8 && s[i + 2] == 0x80u8 {
        3
    } else if n >= 3 && b0 == 0xE2u8 && s[i + 1] == 0x80u8 && ((0x80u8 <= s[i + 2] && s[i + 2] <= 0x8Au8) || s[i + 2] == 0xA8u8
        || s[i + 2] == 0xA9u8 || s[i + 2] == 0xAFu8) {
        3
    } else if n >= 3 && b0 == 0xE2u8 && s[i + 1] == 0x81u8 && s[i + 2] == 0x9Fu8 {
        3
    } else if n >= 3 && b0 == 0xE3u8 && s[i + 1] == 0x80u8 && s[i + 2] == 0x80u8 {
        3
    } else {
        0
    }
}

/// `s` with each white space character other than ASCII replaced by an ASCII space.
fn to_ascii_spaces(s: &[u8]) -> (res: Vec<u8>)
    ensures
        res@ == ascii_spaces(s@),
{
    let mut res: Vec<u8> = Vec::new();
    let mut i: usize = 0;
    proof {
        assert(s@.skip(0) =~= s@);
    }
    while i < s.len()
        invariant
            i <= s@.len(),
            ascii_spaces(s@) == res@ + ascii_spaces(s@.skip(i as int)),
        decreases s@.len() - i,
    {
        let ghost t = s@.skip(i as int);
        let k = wide_space_at(s, i);
        let ghost r0 = res@;
        if k > 0 {
            res.push(32u8);
            proof {
                assert(t.skip(k as int) =~= s@.skip(i + k));
                assert(res@ + ascii_spaces(s@.skip(i + k)) =~= r0 + (seq![32u8] + ascii_spaces(t.skip(k as int))));
            }
            i = i + k;
        } else {
            res.push(s[i]);
            proof {
                assert(t[0] == s@[i as int]);
                assert(t.skip(1) =~= s@.skip(i + 1));
                assert(res@ + ascii_spaces(s@.skip(i + 1)) =~= r0 + (seq![t[0]] + ascii_spaces(t.skip(1))));
            }
            i = i + 1;
        }
    }
    proof {
        assert(s@.skip(i as int) =~= Seq::<u8>::empty());
        assert(res@ + Seq::<u8>::empty() =~= res@);
    }
    res
}

/// Reads the DIMACS clause line `s` (see [`read_dimacs_clause`]).
fn read_clause_line(s: &[u8]) -> (res: Option<Vec<Lit>>)
    ensures
        res is Some <==> valid_clause_line(s@),
        res matches Some(v) ==> v@ == clause_line_lits(s@),
{
    let t = to_ascii_spaces(s);
    read_clause_bytes(t.as_slice())
}

/// Reads the clause words of `s` (see [`read_dimacs_clause`]).
fn read_clause_bytes(s: &[u8]) -> (res: Option<Vec<Lit>>)
    ensures
        res is Some <==> valid_clause_words(s@),
        res matches Some(v) ==> v@ == clause_words_lits(s@),
{
    let ghost bytes = s@;
    let mut values: Vec<i32> = Vec::new();
    let ghost mut done: Seq<Seq<u8>> = Seq::empty();
    let mut i: usize = 0;
    proof {
        assert(bytes.skip(0) =~= bytes);
    }
    while i < s.len()
        invariant
            i <= s@.len(),
            bytes == s@,
            bytes == s@,
            words(bytes) == done + words(bytes.skip(i as int)),
            values@.len() == done.len(),
            forall|k: int| 0 <= k < done.len() ==> parses_i32(#[trigger] done[k]) && values@[k] == i32_value(done[k]),
        decreases s@.len() - i,
    {
        let ghost rest = bytes.skip(i as int);
        if s[i] == 32u8 || (9u8 <= s[i] && s[i] <= 13u8) {
            proof {
                assert(rest[0] == s@[i as int]);
                assert(rest.skip(1) =~= bytes.skip(i + 1));
            }
            i = i + 1;
        } else {
            let mut j = i;
            while j < s.len() && !(s[j] == 32u8 || (9u8 <= s[j] && s[j] <= 13u8))
                invariant
                    i <= j <= s@.len(),
                    bytes == s@,
                    forall|k: int| i <= k < j ==> !is_space(#[trigger] bytes[k]),
                decreases s@.len() - j,
            {
                j = j + 1;
            }
            proof {
                assert(rest[0] == s@[i as int]);
                lemma_word_len_at(bytes, i as int, j as int);
                lemma_word_len_bound(rest);
                assert(rest.take(j - i) =~= bytes.subrange(i as int, j as int));
                assert(rest.skip(j - i) =~= bytes.skip(j as int));
                assert(words(rest) == seq![bytes.subrange(i as int, j as int)] + words(bytes.skip(j as int)));
            }
            match parse_i32_word(s, i, j) {
                None => {
                    proof {
                        let w = words(bytes);
                        assert(w[done.len() as int] == bytes.subrange(i as int, j as int));
                        assert(!parses_i32(w[done.len() as int]));
                    }
                    return None;
                },
                Some(v) => {
                    values.push(v);
                    proof {
                        let word = bytes.subrange(i as int, j as int);
                        assert(done.push(word) + words(bytes.skip(j as int)) =~= done + (seq![word] + words(bytes.skip(j as int))));
                        done = done.push(word);
                    }
                },
            }
            i = j;
        }
    }
    proof {
        assert(bytes.skip(i as int) =~= Seq::<u8>::empty());
        assert(words(bytes) =~= done);
    }
    let n = values.len();
    if n == 0 || values[n - 1] != 0 {
        proof {
            if n > 0 {
                assert(i32_value(done[n - 1]) != 0);
                assert(words(bytes).last() == done[n - 1]);
            }
        }
        return None;
    }
    let mut lits: Vec<Lit> = Vec::new();
    let mut k: usize = 0;
    while k < n - 1
        invariant
            n == values@.len(),
            n >= 1,
            k <= n - 1,
            bytes == s@,
            words(bytes) == done,
            values@.len() == done.len(),
            forall|m: int| 0 <= m < done.len() ==> parses_i32(#[trigger] done[m]) && values@[m] == i32_value(done[m]),
            forall|m: int| 0 <= m < k ==> i32_value(#[trigger] done[m]) != 0,
            lits@ == Seq::new(k as nat, |m: int| Lit::spec_from_code(external_code(i32_value(done[m]) as i32))),
        decreases n - 1 - k,
    {
        let v = values[k];
        if v == 0 {
            proof {
                assert(i32_value(done[k as int]) == 0);
                assert(parses_i32(words(bytes)[k as int]));
            }
            return None;
        }
        let lit = Lit::from_external(v);
        lits.push(lit);
        proof {
            let sl = Lit::spec_from_code(external_code(i32_value(done[k as int]) as i32));
            assert(sl@ == lit@);
            Lit::lemma_view_injective(lit, sl);
            assert(lits@ =~= Seq::new((k + 1) as nat, |m: int| Lit::spec_from_code(external_code(i32_value(done[m]) as i32))));
        }
        k = k + 1;
    }
    Some(lits)
}


/// The number of leading bytes of `s` before the first line feed.
pub open spec fn line_len(s: Seq<u8>) -> nat
    decreases s.len(),
{
    if s.len() == 0 || s[0] == 10u8 {
        0
    } else {
        1 + line_len(s.skip(1))
    }
}

/// A line without its final carriage return, if it has one.
pub open spec fn strip_cr(l: Seq<u8>) -> Seq<u8> {
    if l.len() > 0 && l.last() == 13u8 {
        l.drop_last()
    } else {
        l
    }
}

/// The lines of `text` as `BufRead::lines` gives them: the pieces ended by a line feed, each
/// without a carriage return just before it, then the last piece if it is not empty.
pub open spec fn text_lines(text: Seq<u8>) -> Seq<Seq<u8>>
    decreases text.len(),
{
    if text.len() == 0 {
        Seq::empty()
    } else {
        let k = line_len(text);
        if k < text.len() {
            seq![strip_cr(text.take(k as int))] + text_lines(text.skip(k + 1 as int))
        } else {
            seq![text]
        }
    }
}

/// Whether `b` is a UTF-8 continuation byte.
pub open spec fn is_cont(b: u8) -> bool {
    0x80u8 <= b && b <= 0xBFu8
}

/// The length of the well-formed UTF-8 encoding of one character at the start of `s`, or 0
/// when `s` does not start with one (no overlong forms, surrogates or values above U+10FFFF).
pub open spec fn utf8_char_len(s: Seq<u8>) -> nat {
    if s.len() == 0 {
        0
    } else if s[0] < 0x80u8 {
        1
    } else if 0xC2u8 <= s[0] && s[0] <= 0xDFu8 {
        if s.len() >= 2 && is_cont(s[1]) {
            2
        } else {
            0
        }
    } else if 0xE0u8 <= s[0] && s[0] <= 0xEFu8 {
        let lo: u8 = if s[0] == 0xE0u8 { 0xA0u8 } else { 0x80u8 };
        let hi: u8 = if s[0] == 0xEDu8 { 0x9Fu8 } else { 0xBFu8 };
        if s.len() >= 3 && lo <= s[1] && s[1] <= hi && is_cont(s[2]) {
            3
        } else {
            0
        }
    } else if 0xF0u8 <= s[0] && s[0] <= 0xF4u8 {
        let lo: u8 = if s[0] == 0xF0u8 { 0x90u8 } else { 0x80u8 };
        let hi: u8 = if s[0] == 0xF4u8 { 0x8Fu8 } else { 0xBFu8 };
        if s.len() >= 4 && lo <= s[1] && s[1] <= hi && is_cont(s[2]) && is_cont(s[3]) {
            4
        } else {
            0
        }
    } else {
        0
    }
}

/// Whether `s` is well-formed UTF-8.
pub open spec fn utf8_valid(s: Seq<u8>) -> bool
    decreases s.len(),
{
    if s.len() == 0 {
        true
    } else {
        let k = utf8_char_len(s);
        k > 0 && k <= s.len() && utf8_valid(s.skip(k as int))
    }
}

/// The length of the well-formed UTF-8 character at `s[i..]`, or 0 (see [`utf8_char_len`]).
fn utf8_char_at(s: &[u8], i: usize) -> (res: usize)
    requires
        i < s@.len(),
    ensures
        res == utf8_char_len(s@.skip(i as int)),
        res <= 4,
{
    let ghost t = s@.skip(i as int);
    let n = s.len() - i;
    proof {
        assert(t.len() == n);
        assert(t[0] == s@[i as int]);
        if n >= 2 {
            assert(t[1] == s@[i + 1]);
        }
        if n >= 3 {
            assert(t[2] == s@[i + 2]);
        }
        if n >= 4 {
            assert(t[3] == s@[i + 3]);
        }
    }
    let b0 = s[i];
    if b0 < 0x80u8 {
        1
    } else if 0xC2u8 <= b0 && b0 <= 0xDFu8 {
        if n >= 2 && 0x80u8 <= s[i + 1] && s[i + 1] <= 0xBFu8 {
            2
        } else {
            0
        }
    } else if 0xE0u8 <= b0 && b0 <= 0xEFu8 {
        let lo: u8 = if b0 == 0xE0u8 { 0xA0u8 } else { 0x80u8 };
        let hi: u8 = if b0 == 0xEDu8 { 0x9Fu8 } else { 0xBFu8 };
        if n >= 3 && lo <= s[i + 1] && s[i + 1] <= hi && 0x80u8 <= s[i + 2] && s[i + 2] <= 0xBFu8 {
            3
        } else {
            0
        }
    } else if 0xF0u8 <= b0 && b0 <= 0xF4u8 {
        let lo: u8 = if b0 == 0xF0u8 { 0x90u8 } else { 0x80u8 };
        let hi: u8 = if b0 == 0xF4u8 { 0x8Fu8 } else { 0xBFu8 };
        if n >= 4 && lo <= s[i + 1] && s[i + 1] <= hi && 0x80u8 <= s[i + 2] && s[i + 2] <= 0xBFu8 && 0x80u8 <= s[i + 3] && s[i
            + 3] <= 0xBFu8 {
            4
        } else {
            0
        }
    } else {
        0
    }
}

/// Whether `s` is well-formed UTF-8.
pub fn is_utf8(s: &[u8]) -> (res: bool)
    ensures
        res == utf8_valid(s@),
{
    let mut i: usize = 0;
    proof {
        assert(s@.skip(0) =~= s@);
    }
    while i < s.len()
        invariant
            i <= s@.len(),
            utf8_valid(s@) == utf8_valid(s@.skip(i as int)),
        decreases s@.len() - i,
    {
        let ghost t = s@.skip(i as int);
        let k = utf8_char_at(s, i);
        if k == 0 || k > s.len() - i {
            return false;
        }
        proof {
            assert(t.skip(k as int) =~= s@.skip(i + k));
        }
        i = i + k;
    }
    proof {
        assert(s@.skip(i as int) =~= Seq::<u8>::empty());
    }
    true
}

/// Whether a DIMACS line holds a clause: it is well-formed UTF-8 (other lines cannot be read
/// as text and are passed over) and not empty, a comment (`c`) or the header (`p`).
pub open spec fn is_clause_line(l: Seq<u8>) -> bool {
    utf8_valid(l) && l.len() > 0 && l[0] != 99u8 && l[0] != 112u8
}

/// Whether every clause line among `lines` is a valid clause line.
pub open spec fn dimacs_lines_ok(lines: Seq<Seq<u8>>) -> bool {
    forall|i: int| 0 <= i < lines.len() && is_clause_line(#[trigger] lines[i]) ==> valid_clause_line(lines[i])
}

/// The clauses of the clause lines among `lines`, in order.
pub open spec fn dimacs_lines_clauses(lines: Seq<Seq<u8>>) -> Seq<Seq<Lit>>
    decreases lines.len(),
{
    if lines.len() == 0 {
        Seq::empty()
    } else {
        let rest = dimacs_lines_clauses(lines.drop_last());
        if is_clause_line(lines.last()) {
            rest.push(clause_line_lits(lines.last()))
        } else {
            rest
        }
    }
}

/// The line at `s[lo..]` ends at the first line feed from `lo` on.
proof fn lemma_line_len_at(s: Seq<u8>, lo: int, hi: int)
    requires
        0 <= lo <= hi <= s.len(),
        forall|k: int| lo <= k < hi ==> #[trigger] s[k] != 10u8,
        hi == s.len() || s[hi] == 10u8,
    ensures
        line_len(s.skip(lo)) == hi - lo,
    decreases hi - lo,
{
    if lo < hi {
        lemma_line_len_at(s, lo + 1, hi);
        assert(s.skip(lo).skip(1) =~= s.skip(lo + 1));
    }
}

/// Reads the clauses of a DIMACS text: every line that is well-formed UTF-8 and not empty, a
/// comment (`c`) or the header (`p`) must be a clause line and gives the clause's literals, in
/// order; `None` when some clause line is not valid. Lines that are not UTF-8 are passed over.
pub fn read_dimacs_text(text: &[u8]) -> (res: Option<Vec<Vec<Lit>>>)
    ensures
        res is Some <==> dimacs_lines_ok(text_lines(text@)),
        res matches Some(v) ==> v@.len() == dimacs_lines_clauses(text_lines(text@)).len() && forall|i: int|
            0 <= i < v@.len() ==> (#[trigger] v@[i])@ == dimacs_lines_clauses(text_lines(text@))[i],
{
    let mut res: Vec<Vec<Lit>> = Vec::new();
    let ghost mut done: Seq<Seq<u8>> = Seq::empty();
    let mut pos: usize = 0;
    proof {
        assert(text@.skip(0) =~= text@);
    }
    while pos < text.len()
        invariant
            pos <= text@.len(),
            text_lines(text@) == done + text_lines(text@.skip(pos as int)),
            dimacs_lines_ok(done),
            res@.len() == dimacs_lines_clauses(done).len(),
            forall|i: int| 0 <= i < res@.len() ==> (#[trigger] res@[i])@ == dimacs_lines_clauses(done)[i],
        decreases text@.len() - pos,
    {
        let mut end = pos;
        while end < text.len() && text[end] != 10u8
            invariant
                pos <= end <= text@.len(),
                forall|k: int| pos <= k < end ==> #[trigger] text@[k] != 10u8,
            decreases text@.len() - end,
        {
            end = end + 1;
        }
        let ghost rest = text@.skip(pos as int);
        proof {
            lemma_line_len_at(text@, pos as int, end as int);
            assert(rest.take(end - pos) =~= text@.subrange(pos as int, end as int));
        }
        let mut stop = end;
        if end < text.len() && end > pos && text[end - 1] == 13u8 {
            stop = end - 1;
        }
        let line = vstd::slice::slice_subrange(text, pos, stop);
        let ghost lspec = line@;
        proof {
            if end < text.len() {
                assert(rest.skip(end - pos + 1) =~= text@.skip(end + 1));
                assert(lspec =~= strip_cr(rest.take(end - pos)));
                assert(text_lines(rest) == seq![lspec] + text_lines(text@.skip(end + 1)));
            } else {
                assert(rest =~= text@.subrange(pos as int, end as int));
                assert(lspec =~= rest);
                assert(text_lines(rest) == seq![lspec]);
            }
        }
        if line.len() > 0 && line[0] != 99u8 && line[0] != 112u8 && is_utf8(line) {
            match read_clause_line(line) {
                None => {
                    proof {
                        let all = text_lines(text@);
                        assert(all[done.len() as int] == lspec);
                        assert(!dimacs_lines_ok(all));
                    }
                    return None;
                },
                Some(lits) => {
                    let ghost r0 = res@;
                    res.push(lits);
                    proof {
                        let d2 = done.push(lspec);
                        assert(d2.drop_last() =~= done);
                        assert(dimacs_lines_clauses(d2) == dimacs_lines_clauses(done).push(clause_line_lits(lspec)));
                        assert forall|i: int| 0 <= i < res@.len() implies (#[trigger] res@[i])@ == dimacs_lines_clauses(d2)[i] by {
                            if i < r0.len() {
                                assert(res@[i] == r0[i]);
                            }
                        }
                    }
                },
            }
        } else {
            proof {
                let d2 = done.push(lspec);
                assert(d2.drop_last() =~= done);
            }
        }
        proof {
            let d2 = done.push(lspec);
            assert forall|i: int| 0 <= i < d2.len() && is_clause_line(#[trigger] d2[i]) implies valid_clause_line(d2[i]) by {
                if i < done.len() {
                    assert(d2[i] == done[i]);
                }
            }
            if end < text.len() {
                assert(d2 + text_lines(text@.skip(end + 1)) =~= done + (seq![lspec] + text_lines(text@.skip(end + 1))));
            } else {
                assert(text@.skip(end as int) =~= Seq::<u8>::empty());
                assert(d2 + text_lines(text@.skip(end as int)) =~= done + seq![lspec]);
            }
            done = d2;
        }
        if end < text.len() {
            pos = end + 1;
        } else {
            pos = end;
        }
    }
    proof {
        assert(text@.skip(pos as int) =~= Seq::<u8>::empty());
        assert(done + text_lines(text@.skip(pos as int)) =~= done);
    }
    Some(res)
}


/// What gzip decompression of `data` gives: the bytes, or `None` when `data` is not
/// valid gzip.
pub uninterp spec fn gunzip_spec(data: Seq<u8>) -> Option<Seq<u8>>;

/// Decompresses gzip data with `flate2::read::GzDecoder` (its first member, read to the end);
/// `None` when decoding fails. Trusted: the contract claims that whether decoding succeeds,
/// and what it gives, depend on the input bytes alone (named `gunzip_spec`).
#[verifier::external_body]
fn gunzip(data: &[u8]) -> (res: Option<Vec<u8>>)
    ensures
        res is Some <==> gunzip_spec(data@) is Some,
        res matches Some(v) ==> gunzip_spec(data@) == Some(v@),
{
    let mut out: Vec<u8> = Vec::new();
    match std::io::Read::read_to_end(&mut flate2::read::GzDecoder::new(data), &mut out) {
        Ok(_) => Some(out),
        Err(_) => None,
    }
}

/// Why DIMACS data could not be read.
#[derive(Debug)]
pub enum DimacsError {
    /// The data is not valid gzip.
    Gzip,
    /// A line that is not empty, a comment or the header is not a clause line.
    Clause,
}

/// The text of DIMACS data: the data itself, or what it decompresses to when `gzipped`
/// (nothing when it is not valid gzip).
pub open spec fn dimacs_text(data: Seq<u8>, gzipped: bool) -> Seq<u8> {
    if gzipped {
        match gunzip_spec(data) {
            Some(t) => t,
            None => Seq::empty(),
        }
    } else {
        data
    }
}

/// Reads the clauses of DIMACS data, gzip-compressed when `gzipped` (see
/// [`read_dimacs_text`]).
pub fn read_dimacs_data(data: &[u8], gzipped: bool) -> (res: Result<Vec<Vec<Lit>>, DimacsError>)
    ensures
        res matches Err(DimacsError::Gzip) <==> gzipped && gunzip_spec(data@) is None,
        res matches Err(DimacsError::Clause) ==> !dimacs_lines_ok(text_lines(dimacs_text(data@, gzipped))),
        (!gzipped || gunzip_spec(data@) is Some) ==> (res is Ok <==> dimacs_lines_ok(text_lines(dimacs_text(data@, gzipped)))),
        res matches Ok(v) ==> {
            let cls = dimacs_lines_clauses(text_lines(dimacs_text(data@, gzipped)));
            &&& dimacs_lines_ok(text_lines(dimacs_text(data@, gzipped)))
            &&& v@.len() == cls.len()
            &&& forall|i: int| 0 <= i < v@.len() ==> (#[trigger] v@[i])@ == cls[i]
        },
{
    if gzipped {
        match gunzip(data) {
            None => Err(DimacsError::Gzip),
            Some(text) => match read_dimacs_text(text.as_slice()) {
                Some(v) => Ok(v),
                None => Err(DimacsError::Clause),
            },
        }
    } else {
        match read_dimacs_text(data) {
            Some(v) => Ok(v),
            None => Err(DimacsError::Clause),
        }
    }
}

} // verus!
