use vstd::prelude::*;
use vstd::string::StringExecFns;

verus! {

/// Bit `k` of `x` (0 is the least significant bit).
pub open spec fn bit_of(x: usize, k: nat) -> bool {
    (x >> (k as usize)) & 1usize == 1usize
}

/// The `n` low bits of `x`, most significant first; only the 32 lowest bits
/// of `x` are read, higher positions are `false`.
pub open spec fn num_bits(x: usize, n: nat) -> Seq<bool> {
    Seq::new(n, |j: int| (n - 1 - j) < 32 && bit_of(x, (n - 1 - j) as nat))
}

/// The `n` low bits of `x`, most significant first (only the 32 lowest bits of `x` are read).
pub fn num2bits(x: usize, n: usize) -> (res: Vec<bool>)
    ensures
        res@ == num_bits(x, n as nat),
{
    let mut bits = vec![false; n];
    let m = if n < 32 {
        n
    } else {
        32
    };
    let mut i: usize = 0;
    while i < m
        invariant
            m <= n,
            m <= 32,
            i <= m,
            bits@.len() == n,
            forall|j: int|
                0 <= j < n ==> #[trigger] bits@[j] == ((n - 1 - j) < i && bit_of(x, (n - 1 - j) as nat)),
        decreases m - i,
    {
        let b = (x >> i) & 1 != 0;
        proof {
            let xi = x >> i;
            assert(((xi & 1usize) != 0usize) == ((xi & 1usize) == 1usize)) by (bit_vector);
        }
        bits.set(n - i - 1, b);
        i = i + 1;
    }
    proof {
        assert(bits@ =~= num_bits(x, n as nat));
    }
    bits
}

/// The character `'1'` for `true`, `'0'` for `false`.
pub open spec fn bit_char(b: bool) -> char {
    if b {
        '1'
    } else {
        '0'
    }
}

/// The bits written as `'0'`/`'1'` characters, in order.
pub fn bits2str(bits: &[bool]) -> (res: String)
    ensures
        res@ == bits@.map_values(|b: bool| bit_char(b)),
{
    let mut s = String::new();
    let mut i: usize = 0;
    while i < bits.len()
        invariant
            i <= bits@.len(),
            s@ =~= bits@.take(i as int).map_values(|b: bool| bit_char(b)),
        decreases bits@.len() - i,
    {
        if bits[i] {
            s.append("1");
            proof {
                reveal_strlit("1");
            }
        } else {
            s.append("0");
            proof {
                reveal_strlit("0");
            }
        }
        proof {
            assert(bits@.take(i + 1) =~= bits@.take(i as int).push(bits@[i as int]));
        }
        i = i + 1;
    }
    proof {
        assert(bits@.take(bits@.len() as int) =~= bits@);
    }
    s
}

/// The number whose binary digits are `bits`, most significant first.
pub open spec fn bits_value(bits: Seq<bool>) -> nat
    decreases bits.len(),
{
    if bits.len() == 0 {
        0
    } else {
        2 * bits_value(bits.drop_last()) + (if bits.last() { 1nat } else { 0nat })
    }
}

proof fn lemma_bits_value_prepend(b: bool, t: Seq<bool>)
    ensures
        bits_value(seq![b] + t) == (if b { vstd::arithmetic::power2::pow2(t.len()) } else { 0 })
            + bits_value(t),
        bits_value(t) < vstd::arithmetic::power2::pow2(t.len()),
    decreases t.len(),
{
    let s = seq![b] + t;
    if t.len() == 0 {
        vstd::arithmetic::power2::lemma2_to64();
        assert(s.drop_last() =~= Seq::<bool>::empty());
        assert(s.last() == b);
        assert(bits_value(s) == 2 * bits_value(s.drop_last()) + (if s.last() { 1nat } else { 0nat }));
    } else {
        lemma_bits_value_prepend(b, t.drop_last());
        assert(s.drop_last() =~= seq![b] + t.drop_last());
        assert(s.last() == t.last());
        vstd::arithmetic::power2::lemma_pow2_unfold(t.len());
        assert(bits_value(s) == 2 * bits_value(s.drop_last()) + (if s.last() { 1nat } else { 0nat }));
        assert(bits_value(t) == 2 * bits_value(t.drop_last()) + (if t.last() { 1nat } else { 0nat }));
    }
}

/// Writing a number with `n` binary digits (at most 32) and reading them back gives the
/// number, when it has at most `n` digits.
pub proof fn lemma_bits_roundtrip(x: usize, n: nat)
    requires
        n <= 32,
        x < vstd::arithmetic::power2::pow2(n),
    ensures
        bits_value(num_bits(x, n)) == x,
    decreases n,
{
    let s = num_bits(x, n);
    if n == 0 {
        vstd::arithmetic::power2::lemma2_to64();
        assert(s =~= Seq::<bool>::empty());
    } else {
        let y: usize = x >> 1usize;
        vstd::arithmetic::power2::lemma_pow2_unfold(n);
        assert(x >> 1usize == x / 2) by (bit_vector);
        lemma_bits_roundtrip(y, (n - 1) as nat);
        assert forall|j: int| 0 <= j < n - 1 implies #[trigger] s.drop_last()[j] == num_bits(y, (n - 1) as nat)[j] by {
            let k: usize = (n - 2 - j) as usize;
            assert(k < 31);
            assert(((x >> 1usize) >> k) & 1usize == (x >> ((k + 1) as usize)) & 1usize) by (bit_vector)
                requires
                    k < 31,
            ;
            assert((n - 1 - j) as usize == (k + 1) as usize);
        }
        assert(s.drop_last() =~= num_bits(y, (n - 1) as nat));
        assert(s.last() == ((x & 1usize) == 1usize)) by {
            assert((x >> 0usize) == x) by (bit_vector);
        }
        assert(2 * (x >> 1usize) + (if (x & 1usize) == 1usize { 1usize } else { 0usize }) == x) by (bit_vector);
    }
}

/// Two bit sequences of the same length with the same value are equal.
proof fn lemma_bits_value_injective(s: Seq<bool>, t: Seq<bool>)
    requires
        s.len() == t.len(),
        bits_value(s) == bits_value(t),
    ensures
        s == t,
    decreases s.len(),
{
    if s.len() == 0 {
        assert(s =~= t);
    } else {
        let a = bits_value(s.drop_last());
        let b = bits_value(t.drop_last());
        assert(bits_value(s) == 2 * a + (if s.last() { 1nat } else { 0nat }));
        assert(bits_value(t) == 2 * b + (if t.last() { 1nat } else { 0nat }));
        assert(s.last() == t.last());
        lemma_bits_value_injective(s.drop_last(), t.drop_last());
        assert(s =~= s.drop_last().push(s.last()));
        assert(t =~= t.drop_last().push(t.last()));
    }
}

/// Reading at most 32 bits as a number and writing it back with as many digits gives the
/// same bits.
pub proof fn lemma_bits_roundtrip_back(bits: Seq<bool>)
    requires
        bits.len() <= 32,
    ensures
        bits_value(bits) < vstd::arithmetic::power2::pow2(bits.len()),
        bits_value(bits) <= u32::MAX,
        num_bits(bits_value(bits) as usize, bits.len()) == bits,
{
    lemma_bits_value_prepend(false, bits);
    vstd::arithmetic::power2::lemma2_to64();
    if bits.len() < 32 {
        vstd::arithmetic::power2::lemma_pow2_strictly_increases(bits.len(), 32);
    }
    let x = bits_value(bits) as usize;
    lemma_bits_roundtrip(x, bits.len());
    lemma_bits_value_injective(num_bits(x, bits.len()), bits);
}

/// The number whose binary digits are `bits` (at most 32), most significant first.
pub fn bits2num(bits: &[bool]) -> (res: u32)
    requires
        bits@.len() <= 32,
    ensures
        res == bits_value(bits@),
{
    let n = bits.len();
    let mut result: u32 = 0;
    let mut shift: u32 = 0;
    proof {
        vstd::arithmetic::power2::lemma2_to64();
        assert(bits@.skip(n as int) =~= Seq::<bool>::empty());
    }
    while shift < n as u32
        invariant
            n == bits@.len(),
            n <= 32,
            shift <= n,
            result == bits_value(bits@.skip(n - shift)),
            result < vstd::arithmetic::power2::pow2(shift as nat),
        decreases n - shift,
    {
        let k = n - 1 - shift as usize;
        proof {
            let t = bits@.skip(n - shift);
            assert(bits@.skip(k as int) =~= seq![bits@[k as int]] + t);
            lemma_bits_value_prepend(bits@[k as int], t);
            vstd::bits::lemma_u32_pow2_no_overflow(shift as nat);
            vstd::bits::lemma_u32_shl_is_mul(1, shift);
            vstd::arithmetic::power2::lemma_pow2_unfold((shift + 1) as nat);
        }
        if bits[k] {
            proof {
                let r = result;
                let p = 1u32 << shift;
                assert(r < p && shift < 32 && p == (1u32 << shift) ==> (r | p) == r + p) by (bit_vector);
            }
            result = result | (1u32 << shift);
        }
        shift = shift + 1;
    }
    proof {
        assert(bits@.skip(0) =~= bits@);
    }
    result
}

/// Whether `x` is a power of two.
pub open spec fn is_pow2(x: nat) -> bool
    decreases x,
{
    if x == 1 {
        true
    } else if x == 0 || x % 2 == 1 {
        false
    } else {
        is_pow2(x / 2)
    }
}

proof fn lemma_pow2_and(x: usize)
    requires
        x >= 1,
    ensures
        (x & ((x - 1) as usize)) == 0usize <==> is_pow2(x as nat),
    decreases x,
{
    let y: usize = (x - 1) as usize;
    if x == 1 {
        assert(y == 0usize ==> 1usize & y == 0usize) by (bit_vector);
    } else if x % 2 == 1 {
        assert(x % 2 == 1 && x > 1 && y == x - 1 ==> (x & y) == y) by (bit_vector);
    } else {
        let h: usize = x / 2;
        let g: usize = (h - 1) as usize;
        assert(x % 2 == 0 && x >= 2 && y == x - 1 && h == x / 2 && g == h - 1 ==> (x & y) == 2 * (h & g)) by (bit_vector);
        lemma_pow2_and(h);
    }
}

/// Whether `x` (non-zero) is a power of two.
pub fn is_power_of_two(x: usize) -> (res: bool)
    requires
        x >= 1,
    ensures
        res == is_pow2(x as nat),
{
    proof {
        lemma_pow2_and(x);
    }
    x & (x - 1) == 0
}

/// The decimal characters of a digit.
pub open spec fn digit_char(d: nat) -> char {
    if d == 0 {
        '0'
    } else if d == 1 {
        '1'
    } else if d == 2 {
        '2'
    } else if d == 3 {
        '3'
    } else if d == 4 {
        '4'
    } else if d == 5 {
        '5'
    } else if d == 6 {
        '6'
    } else if d == 7 {
        '7'
    } else if d == 8 {
        '8'
    } else {
        '9'
    }
}

/// The decimal characters of a natural number.
pub open spec fn nat_chars(n: nat) -> Seq<char>
    decreases n,
{
    if n < 10 {
        seq![digit_char(n)]
    } else {
        nat_chars(n / 10).push(digit_char(n % 10))
    }
}

/// The decimal characters of an integer, with a leading `-` when negative.
pub open spec fn int_chars(x: int) -> Seq<char> {
    if x < 0 {
        seq!['-'] + nat_chars((-x) as nat)
    } else {
        nat_chars(x as nat)
    }
}

/// The DIMACS line of a clause: each literal followed by a space, then `0`.
pub open spec fn dimacs_chars(clause: Seq<i32>) -> Seq<char>
    decreases clause.len(),
{
    if clause.len() == 0 {
        seq!['0']
    } else {
        int_chars(clause[0] as int) + seq![' '] + dimacs_chars(clause.skip(1))
    }
}

fn append_digit(s: &mut String, d: u64)
    requires
        d < 10,
    ensures
        final(s)@ == old(s)@.push(digit_char(d as nat)),
{
    if d == 0 {
        s.append("0");
        proof {
            reveal_strlit("0");
        }
    } else if d == 1 {
        s.append("1");
        proof {
            reveal_strlit("1");
        }
    } else if d == 2 {
        s.append("2");
        proof {
            reveal_strlit("2");
        }
    } else if d == 3 {
        s.append("3");
        proof {
            reveal_strlit("3");
        }
    } else if d == 4 {
        s.append("4");
        proof {
            reveal_strlit("4");
        }
    } else if d == 5 {
        s.append("5");
        proof {
            reveal_strlit("5");
        }
    } else if d == 6 {
        s.append("6");
        proof {
            reveal_strlit("6");
        }
    } else if d == 7 {
        s.append("7");
        proof {
            reveal_strlit("7");
        }
    } else if d == 8 {
        s.append("8");
        proof {
            reveal_strlit("8");
        }
    } else {
        s.append("9");
        proof {
            reveal_strlit("9");
        }
    }
}

/// Appends the decimal characters of `x`.
fn append_int(s: &mut String, x: i32)
    ensures
        final(s)@ == old(s)@ + int_chars(x as int),
{
    let ghost start = s@;
    let mut m: u64 = if x < 0 {
        s.append("-");
        proof {
            reveal_strlit("-");
        }
        (-(x as i64)) as u64
    } else {
        x as u64
    };
    let ghost n = m as nat;
    let ghost prefix = s@;
    let mut digits: Vec<u64> = Vec::new();
    let ghost mut tail: Seq<char> = Seq::empty();
    while m >= 10
        invariant
            nat_chars(n) == nat_chars(m as nat) + tail,
            tail.len() == digits@.len(),
            forall|i: int|
                0 <= i < digits@.len() ==> #[trigger] digits@[i] < 10 && tail[tail.len() - 1 - i]
                    == digit_char(digits@[i] as nat),
        decreases m,
    {
        let d = m % 10;
        proof {
            tail = seq![digit_char(d as nat)] + tail;
            assert(nat_chars(m as nat) == nat_chars((m / 10) as nat).push(digit_char(d as nat)));
            assert(nat_chars((m / 10) as nat).push(digit_char(d as nat)) + (tail.skip(1)) =~= nat_chars(
                (m / 10) as nat,
            ) + tail);
        }
        digits.push(d);
        m = m / 10;
    }
    append_digit(s, m);
    let ghost mid = s@;
    let mut k = digits.len();
    while k > 0
        invariant
            k <= digits@.len(),
            tail.len() == digits@.len(),
            forall|i: int|
                0 <= i < digits@.len() ==> #[trigger] digits@[i] < 10 && tail[tail.len() - 1 - i]
                    == digit_char(digits@[i] as nat),
            s@ =~= mid + tail.take(digits@.len() - k),
        decreases k,
    {
        k = k - 1;
        append_digit(s, digits[k]);
        proof {
            assert(tail.take(digits@.len() - k) =~= tail.take(digits@.len() - k - 1).push(
                tail[digits@.len() - 1 - k],
            ));
        }
    }
    proof {
        assert(tail.take(tail.len() as int) =~= tail);
        assert(mid == prefix.push(digit_char(m as nat)));
        assert(nat_chars(m as nat) == seq![digit_char(m as nat)]);
        if x < 0 {
            assert(prefix == start + seq!['-']);
        }
    }
}

/// The DIMACS line of a clause: each literal followed by a space, then `0`.
pub fn to_dimacs(clause: &[i32]) -> (res: String)
    ensures
        res@ == dimacs_chars(clause@),
{
    let mut s = String::new();
    let mut i: usize = 0;
    proof {
        assert(clause@.skip(0) =~= clause@);
    }
    while i < clause.len()
        invariant
            i <= clause@.len(),
            s@ + dimacs_chars(clause@.skip(i as int)) =~= dimacs_chars(clause@),
        decreases clause@.len() - i,
    {
        let ghost before = s@;
        append_int(&mut s, clause[i]);
        s.append(" ");
        proof {
            reveal_strlit(" ");
            let t = clause@.skip(i as int);
            assert(t.skip(1) =~= clause@.skip(i + 1));
            assert(dimacs_chars(t) == int_chars(t[0] as int) + seq![' '] + dimacs_chars(t.skip(1)));
        }
        i = i + 1;
    }
    s.append("0");
    proof {
        reveal_strlit("0");
    }
    s
}

} // verus!
