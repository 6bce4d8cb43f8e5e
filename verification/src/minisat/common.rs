use vstd::prelude::*;

verus! {

/// MiniSat lifted Boolean.
#[derive(Debug, Copy, Clone, PartialEq, Eq, Structural)]
pub enum LBool {
    True,
    False,
    Undef,
}

impl LBool {
    /// The Boolean value; `Undef` has none.
    pub fn bool(self) -> (res: bool)
        requires
            self != LBool::Undef,
        ensures
            res == (self == LBool::True),
    {
        match self {
            LBool::True => true,
            LBool::False => false,
            LBool::Undef => false,
        }
    }

    /// The opposite value; `Undef` has none.
    pub fn flip(self) -> (res: Self)
        requires
            self != LBool::Undef,
        ensures
            res == flipped(self),
    {
        match self {
            LBool::True => LBool::False,
            LBool::False => LBool::True,
            LBool::Undef => LBool::Undef,
        }
    }
}

/// The opposite of a defined value (`Undef` stays `Undef`).
pub open spec fn flipped(v: LBool) -> LBool {
    match v {
        LBool::True => LBool::False,
        LBool::False => LBool::True,
        LBool::Undef => LBool::Undef,
    }
}

/// Flipping a defined value twice gives it back, and flipping changes it.
pub proof fn lemma_flip_involutive(v: LBool)
    requires
        v != LBool::Undef,
    ensures
        flipped(flipped(v)) == v,
        flipped(v) != v,
        flipped(v) != LBool::Undef,
{
}

/// MiniSat variable: a 0-based index.
#[derive(Debug, Copy, Clone)]
pub struct Var(u32);

impl View for Var {
    type V = u32;

    closed spec fn view(&self) -> u32 {
        self.0
    }
}

impl Var {
    /// The variable with index `var`.
    pub fn new(var: u32) -> (res: Self)
        ensures
            res@ == var,
    {
        Var(var)
    }

    /// Two variables are equal exactly when their indices are.
    pub proof fn lemma_view_injective(a: Var, b: Var)
        ensures
            a@ == b@ <==> a == b,
    {
    }

    /// The index of the variable.
    pub(crate) fn get(self) -> (res: u32)
        ensures
            res == self@,
    {
        self.0
    }
}

/// MiniSat literal, represented as `2 * var + sign`.
#[derive(Debug, Copy, Clone, Eq, PartialEq, Structural)]
pub struct Lit(u32);

impl View for Lit {
    type V = u32;

    closed spec fn view(&self) -> u32 {
        self.0
    }
}

/// The MiniSat code `var << 1 | sign`, truncated to 32 bits.
pub open spec fn mk_code(var: u32, sign: u32) -> u32 {
    ((var << 1u32) | sign) as u32
}

impl Lit {
    /// The literal with code `x`.
    pub fn new(x: u32) -> (res: Self)
        ensures
            res@ == x,
    {
        Lit(x)
    }

    /// The literal `var << 1 | sign`.
    pub fn mk(var: u32, sign: u32) -> (res: Self)
        ensures
            res@ == mk_code(var, sign),
            var < 0x8000_0000u32 && sign <= 1 ==> res.var() == var && res.sign() == sign,
    {
        let res = Self::new(var << 1 | sign);
        proof {
            if var < 0x8000_0000u32 && sign <= 1 {
                assert((((var << 1u32) | sign) >> 1u32) == var && (((var << 1u32) | sign) & 1u32)
                    == sign) by (bit_vector)
                    requires
                        var < 0x8000_0000u32,
                        sign <= 1,
                ;
            }
        }
        res
    }

    /// The code of the literal.
    pub fn get(self) -> (res: u32)
        ensures
            res == self@,
    {
        self.0
    }

    /// The 0-based variable index (spec form).
    pub open spec fn spec_var(self) -> u32 {
        self@ >> 1u32
    }

    /// The sign bit (spec form).
    pub open spec fn spec_sign(self) -> u32 {
        self@ & 1u32
    }

    /// The 0-based variable index.
    #[verifier::when_used_as_spec(spec_var)]
    pub fn var(self) -> (res: u32)
        ensures
            res == self@ >> 1u32,
    {
        self.0 >> 1
    }

    /// `0` when the literal is positive, `1` when it is negative.
    #[verifier::when_used_as_spec(spec_sign)]
    pub fn sign(self) -> (res: u32)
        ensures
            res == self@ & 1u32,
            res <= 1,
    {
        let x = self.0;
        assert(x & 1u32 <= 1u32) by (bit_vector);
        x & 1
    }

    /// The complementary literal.
    pub fn negate(self) -> (res: Self)
        ensures
            res@ == self@ ^ 1u32,
            res.var() == self.var(),
            res.sign() == 1 - self.sign(),
    {
        let x = self.0;
        assert(((x ^ 1u32) >> 1u32) == (x >> 1u32) && ((x ^ 1u32) & 1u32) == 1u32 - (x & 1u32)) by (bit_vector);
        Self::new(x ^ 1)
    }
}

/// Negating a MiniSat literal twice gives it back.
pub proof fn lemma_negate_involutive(x: u32)
    ensures
        (x ^ 1u32) ^ 1u32 == x,
{
    assert((x ^ 1u32) ^ 1u32 == x) by (bit_vector);
}

impl From<Var> for Lit {
    fn from(var: Var) -> (res: Self) {
        Self::mk(var.get(), 0)
    }
}

impl vstd::std_specs::convert::FromSpecImpl<Var> for Lit {
    open spec fn obeys_from_spec() -> bool {
        true
    }

    open spec fn from_spec(var: Var) -> Lit {
        Lit::spec_new(mk_code(var@, 0))
    }
}

impl Lit {
    /// The literal with code `x` (spec form).
    pub closed spec fn spec_new(x: u32) -> Lit {
        Lit(x)
    }

    /// The code of `spec_new(x)` is `x`.
    pub broadcast proof fn lemma_spec_new_view(x: u32)
        ensures
            #[trigger] Lit::spec_new(x)@ == x,
    {
    }

    /// Two literals are equal exactly when their codes are.
    pub proof fn lemma_view_injective(a: Lit, b: Lit)
        ensures
            a@ == b@ <==> a == b,
    {
    }
}

impl core::ops::Neg for Lit {
    type Output = Lit;

    fn neg(self) -> (res: Lit) {
        self.negate()
    }
}

impl vstd::std_specs::ops::NegSpecImpl for Lit {
    open spec fn obeys_neg_spec() -> bool {
        true
    }

    open spec fn neg_req(self) -> bool {
        true
    }

    open spec fn neg_spec(self) -> Lit {
        Lit::spec_new(self@ ^ 1u32)
    }
}

impl core::ops::Not for Lit {
    type Output = Lit;

    fn not(self) -> (res: Lit) {
        self.negate()
    }
}

impl vstd::std_specs::ops::NotSpecImpl for Lit {
    open spec fn obeys_not_spec() -> bool {
        true
    }

    open spec fn not_req(self) -> bool {
        true
    }

    open spec fn not_spec(self) -> Lit {
        Lit::spec_new(self@ ^ 1u32)
    }
}

} // verus!
