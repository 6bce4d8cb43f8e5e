use vstd::prelude::*;

use crate::var::Var;

verus! {

broadcast use crate::var::lemma_var_from_index_view;

/// A literal: a variable with a polarity, encoded as `2 * var + negated`.
#[derive(Debug, Copy, Clone, Eq, PartialEq, Hash, Structural)]
pub struct Lit(u32);

impl View for Lit {
    type V = u32;

    closed spec fn view(&self) -> u32 {
        self.0
    }
}

/// The code of the literal over variable `var` with polarity `negated`.
pub open spec fn lit_code(var: u32, negated: bool) -> u32 {
    ((var << 1u32) | (if negated { 1u32 } else { 0u32 })) as u32
}

/// The variable index stored in a literal code.
pub open spec fn code_var(code: u32) -> u32 {
    code >> 1u32
}

/// Whether a literal code is negated.
pub open spec fn code_negated(code: u32) -> bool {
    code & 1u32 == 1u32
}

/// The signed external (DIMACS) form of a literal code, truncated to `i32` as Rust does.
pub open spec fn code_external(code: u32) -> i32 {
    if code_negated(code) {
        (-(code_var(code) + 1)) as i32
    } else if code_var(code) + 1 == 0x8000_0000 {
        i32::MIN
    } else {
        (code_var(code) + 1) as i32
    }
}

/// Whether the external form of a literal code fits in `i32` without overflow.
pub open spec fn code_external_ok(code: u32) -> bool {
    code_var(code) < 0x7fff_ffffu32 || !code_negated(code)
}

/// The literal code denoted by a non-zero signed external (DIMACS) literal.
pub open spec fn external_code(lit: i32) -> u32 {
    lit_code((abs_i32(lit) - 1) as u32, lit < 0)
}

/// Absolute value of an `i32`, as a mathematical integer.
pub open spec fn abs_i32(x: i32) -> int {
    if x < 0 {
        -(x as int)
    } else {
        x as int
    }
}

proof fn lemma_code_bits(var: u32, negated: bool)
    requires
        var < 0x8000_0000u32,
    ensures
        code_var(lit_code(var, negated)) == var,
        code_negated(lit_code(var, negated)) == negated,
{
    let b: u32 = if negated { 1u32 } else { 0u32 };
    assert((((var << 1u32) | b) >> 1u32) == var && ((((var << 1u32) | b) & 1u32) == b)) by (bit_vector)
        requires
            var < 0x8000_0000u32,
            b == 0u32 || b == 1u32,
    ;
}

proof fn lemma_code_recompose(code: u32)
    ensures
        lit_code(code_var(code), code_negated(code)) == code,
        code_var(code) < 0x8000_0000u32,
{
    let b: u32 = if code & 1u32 == 1u32 { 1u32 } else { 0u32 };
    assert(((code >> 1u32) << 1u32) | b == code && (code >> 1u32) < 0x8000_0000u32) by (bit_vector)
        requires
            b == (if code & 1u32 == 1u32 { 1u32 } else { 0u32 }),
    ;
}

proof fn lemma_code_flip(code: u32, b: bool)
    ensures
        code_var(code ^ (if b { 1u32 } else { 0u32 })) == code_var(code),
        code_negated(code ^ (if b { 1u32 } else { 0u32 })) == (code_negated(code) != b),
{
    let x: u32 = if b { 1u32 } else { 0u32 };
    assert(((code ^ x) >> 1u32) == (code >> 1u32)) by (bit_vector)
        requires
            x == 0u32 || x == 1u32,
    ;
    if b {
        assert(((code ^ 1u32) & 1u32 == 1u32) == !(code & 1u32 == 1u32)) by (bit_vector);
    } else {
        assert((code ^ 0u32) == code) by (bit_vector);
    }
}

impl Lit {
    /// The literal of `var`, negated when `negated` holds.
    pub fn new(var: Var, negated: bool) -> (res: Self)
        ensures
            res@ == lit_code(var@, negated),
            var@ < 0x8000_0000u32 ==> res.var() == var && res.negated() == negated,
    {
        let b: u32 = if negated {
            1
        } else {
            0
        };
        let res = Lit(var.inner() << 1 | b);
        proof {
            if var@ < 0x8000_0000u32 {
                lemma_code_bits(var@, negated);
                Var::lemma_view_injective(res.var(), var);
            }
        }
        res
    }

    /// The literal with the given code.
    pub fn from_code(code: u32) -> (res: Self)
        ensures
            res@ == code,
    {
        Lit(code)
    }

    /// The code of the literal.
    pub fn inner(self) -> (res: u32)
        ensures
            res == self@,
    {
        self.0
    }

    /// The variable of this literal (spec form).
    pub closed spec fn spec_var(self) -> Var {
        Var::spec_from_index(code_var(self@))
    }

    /// Whether this literal is negated (spec form).
    pub open spec fn spec_negated(self) -> bool {
        code_negated(self@)
    }

    /// The variable of the literal.
    #[verifier::when_used_as_spec(spec_var)]
    pub fn var(self) -> (res: Var)
        ensures
            res@ == code_var(self@),
            res == self.spec_var(),
    {
        let v = Var::new(self.0 >> 1);
        proof {
            Var::lemma_view_injective(v, self.spec_var());
        }
        v
    }

    /// Whether the literal is negated.
    #[verifier::when_used_as_spec(spec_negated)]
    pub fn negated(self) -> (res: bool)
        ensures
            res == code_negated(self@),
    {
        let c = self.0;
        assert(((c & 1u32) != 0u32) == ((c & 1u32) == 1u32)) by (bit_vector);
        (c & 1) != 0
    }

    /// `-1` for a negated literal, `1` for a positive one.
    pub fn sign(self) -> (res: i32)
        ensures
            res == (if code_negated(self@) { -1i32 } else { 1i32 }),
    {
        if self.negated() {
            -1
        } else {
            1
        }
    }

    /// The code of the literal, as `usize`.
    pub fn index(self) -> (res: usize)
        ensures
            res == self@,
    {
        self.0 as usize
    }

    /// The signed external (DIMACS) form: the 1-based variable, negative when negated.
    pub fn to_external(self) -> (res: i32)
        requires
            code_external_ok(self@),
        ensures
            res == code_external(self@),
    {
        let v = self.var();
        proof {
            lemma_code_recompose(self@);
        }
        let e = v.to_external();
        if e == 0x8000_0000u32 {
            i32::MIN
        } else {
            let x = e as i32;
            if self.negated() {
                -x
            } else {
                x
            }
        }
    }

    /// The literal denoted by a non-zero signed external (DIMACS) literal.
    pub fn from_external(lit: i32) -> (res: Self)
        requires
            lit != 0,
        ensures
            res@ == external_code(lit),
    {
        let a: u32 = if lit < 0 {
            (-(lit as i64)) as u32
        } else {
            lit as u32
        };
        let var = Var::from_external(a);
        let sign = lit < 0;
        Self::new(var, sign)
    }

    /// The complementary literal (`!lit` and `-lit`).
    pub fn negate(self) -> (res: Self)
        ensures
            res == self.negate_spec(),
            res@ == self@ ^ 1u32,
            res.var() == self.var(),
            res.negated() == !self.negated(),
    {
        let res = Lit(self.0 ^ 1);
        proof {
            lemma_code_flip(self@, true);
            Var::lemma_view_injective(res.var(), self.var());
        }
        res
    }

    /// The opposite literal (spec form).
    pub closed spec fn negate_spec(self) -> Lit {
        Lit(self.0 ^ 1u32)
    }

    /// The opposite literal has the same variable and the other polarity.
    pub broadcast proof fn lemma_negate_spec(l: Lit)
        ensures
            (#[trigger] l.negate_spec())@ == l@ ^ 1u32,
            l.negate_spec().var() == l.var(),
            l.negate_spec().negated() == !l.negated(),
    {
        lemma_code_flip(l@, true);
        Var::lemma_view_injective(l.negate_spec().var(), l.var());
    }

    /// The literal flipped when `b` holds (`lit ^ b`).
    pub fn xor(self, b: bool) -> (res: Self)
        ensures
            res@ == self@ ^ (if b { 1u32 } else { 0u32 }),
            res.var() == self.var(),
            res.negated() == (self.negated() != b),
    {
        let x: u32 = if b {
            1
        } else {
            0
        };
        let res = Lit(self.0 ^ x);
        proof {
            lemma_code_flip(self@, b);
            Var::lemma_view_injective(res.var(), self.var());
        }
        res
    }

    /// A literal is determined by its variable and polarity.
    pub proof fn lemma_var_negated_determine(a: Lit, b: Lit)
        ensures
            (a.var() == b.var() && a.negated() == b.negated()) <==> (a == b),
    {
        lemma_code_recompose(a@);
        lemma_code_recompose(b@);
        Var::lemma_view_injective(a.var(), b.var());
        if a@ == b@ {
            assert(a == b);
        }
    }

    /// Distinct literals have distinct codes.
    pub proof fn lemma_view_injective(a: Lit, b: Lit)
        ensures
            a@ == b@ <==> a == b,
    {
    }

    /// The variable of a literal fits in 31 bits.
    pub proof fn lemma_var_bound(a: Lit)
        ensures
            a.var()@ < 0x8000_0000u32,
    {
        lemma_code_recompose(a@);
    }
}

impl core::ops::Not for Lit {
    type Output = Lit;

    fn not(self) -> (res: Lit) {
        Lit(self.0 ^ 1)
    }
}

impl vstd::std_specs::ops::NotSpecImpl for Lit {
    open spec fn obeys_not_spec() -> bool {
        true
    }

    open spec fn not_req(self) -> bool {
        true
    }

    open spec fn not_spec(self) -> Lit {
        Lit::spec_from_code(self@ ^ 1u32)
    }
}

impl core::ops::Neg for Lit {
    type Output = Lit;

    fn neg(self) -> (res: Lit) {
        Lit(self.0 ^ 1)
    }
}

impl vstd::std_specs::ops::NegSpecImpl for Lit {
    open spec fn obeys_neg_spec() -> bool {
        true
    }

    open spec fn neg_req(self) -> bool {
        true
    }

    open spec fn neg_spec(self) -> Lit {
        Lit::spec_from_code(self@ ^ 1u32)
    }
}

impl core::ops::BitXor<bool> for Lit {
    type Output = Lit;

    fn bitxor(self, rhs: bool) -> (res: Lit) {
        let x: u32 = if rhs {
            1
        } else {
            0
        };
        Lit(self.0 ^ x)
    }
}

impl vstd::std_specs::ops::BitXorSpecImpl<bool> for Lit {
    open spec fn obeys_bitxor_spec() -> bool {
        true
    }

    open spec fn bitxor_req(self, rhs: bool) -> bool {
        true
    }

    open spec fn bitxor_spec(self, rhs: bool) -> Lit {
        Lit::spec_from_code(self@ ^ (if rhs { 1u32 } else { 0u32 }))
    }
}

impl Lit {
    /// The literal with the given code (spec form).
    pub closed spec fn spec_from_code(code: u32) -> Lit {
        Lit(code)
    }

    /// The code of `spec_from_code(c)` is `c`.
    pub broadcast proof fn lemma_from_code_view(code: u32)
        ensures
            #[trigger] Lit::spec_from_code(code)@ == code,
    {
    }
}

/// The variable of a literal is the literal's code shifted right by one.
pub broadcast proof fn lemma_lit_var_view(l: Lit)
    ensures
        #[trigger] l.var()@ == code_var(l@),
{
}

/// Encoding a variable and polarity, then decoding, gives them back.
pub proof fn lemma_lit_roundtrip(var: Var, negated: bool)
    requires
        var@ < 0x8000_0000u32,
    ensures
        code_var(lit_code(var@, negated)) == var@,
        code_negated(lit_code(var@, negated)) == negated,
{
    lemma_code_bits(var@, negated);
}

/// Negating a literal twice gives the literal back, and negation keeps the variable.
pub proof fn lemma_lit_double_negation(code: u32)
    ensures
        (code ^ 1u32) ^ 1u32 == code,
        code_var(code ^ 1u32) == code_var(code),
        code_negated(code ^ 1u32) == !code_negated(code),
{
    assert((code ^ 1u32) ^ 1u32 == code) by (bit_vector);
    lemma_code_flip(code, true);
}

/// The variable of the literal denoted by a non-zero external literal is one less than its
/// absolute value.
pub proof fn lemma_external_code_var(lit: i32)
    requires
        lit != 0,
        lit != i32::MIN,
    ensures
        code_var(external_code(lit)) == abs_i32(lit) - 1,
{
    let v = (abs_i32(lit) - 1) as u32;
    assert(abs_i32(lit) <= 0x8000_0000);
    lemma_code_bits(v, lit < 0);
}

/// Reading a non-zero external literal and writing it back gives the same number.
pub proof fn lemma_lit_external_roundtrip(lit: i32)
    requires
        lit != 0,
        lit != i32::MIN,
    ensures
        code_external_ok(external_code(lit)),
        code_external(external_code(lit)) == lit,
{
    let v = (abs_i32(lit) - 1) as u32;
    assert(abs_i32(lit) <= 0x8000_0000);
    lemma_code_bits(v, lit < 0);
}

/// Writing a literal code as an external number and reading it back gives the code again,
/// when the variable's number fits in `i32`; the number is negative exactly when the literal
/// is negated.
pub proof fn lemma_code_external_roundtrip(code: u32)
    requires
        code_var(code) < 0x7fff_ffffu32,
    ensures
        code_external_ok(code),
        code_external(code) != 0,
        code_external(code) != i32::MIN,
        external_code(code_external(code)) == code,
        (code_external(code) < 0) == code_negated(code),
{
    lemma_code_recompose(code);
    let v = code_var(code);
    assert(abs_i32(code_external(code)) == v + 1);
    assert((abs_i32(code_external(code)) - 1) as u32 == v);
}

/// Writing a literal as an external number and reading it back gives the literal again, when
/// its variable's number fits in `i32`.
pub proof fn lemma_lit_to_external_roundtrip(l: Lit)
    requires
        l.var()@ < 0x7fff_ffffu32,
    ensures
        code_external_ok(l@),
        Lit::spec_from_code(external_code(code_external(l@))) == l,
        (code_external(l@) < 0) == l.negated(),
{
    lemma_code_external_roundtrip(l@);
    let m = Lit::spec_from_code(external_code(code_external(l@)));
    assert(m@ == l@);
    Lit::lemma_view_injective(m, l);
}

} // verus!
