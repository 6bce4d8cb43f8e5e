use vstd::prelude::*;


verus! {

/// MiniSat lifted Boolean, as used with the C interface.
#[derive(Debug, Copy, Clone, PartialEq, Eq, Structural)]
pub enum LBool {
    True,
    False,
    Undef,
}

/// The opposite of a defined value (`Undef` stays `Undef`).
pub open spec fn flipped(v: LBool) -> LBool {
    match v {
        LBool::True => LBool::False,
        LBool::False => LBool::True,
        LBool::Undef => LBool::Undef,
    }
}

impl LBool {
    /// The Boolean value; `Undef` has none.
    pub fn bool(self) -> (res: bool)
        requires
            self != LBool::Undef,
        ensures
            res == (self == LBool::True),
    {
        match self {
            LBool::True => true,
            LBool::False => false,
            LBool::Undef => false,
        }
    }

    /// The opposite value; `Undef` has none.
    pub fn flip(self) -> (res: Self)
        requires
            self != LBool::Undef,
        ensures
            res == flipped(self),
    {
        match self {
            LBool::True => LBool::False,
            LBool::False => LBool::True,
            LBool::Undef => LBool::Undef,
        }
    }
}

/// MiniSat literal as a C `int`: `2 * var + sign`.
#[derive(Debug, Copy, Clone, Eq, PartialEq, Structural)]
pub struct Lit(i32);

impl View for Lit {
    type V = i32;

    closed spec fn view(&self) -> i32 {
        self.0
    }
}

impl Lit {
    /// The literal with code `x` (non-negative).
    pub fn new(x: i32) -> (res: Self)
        requires
            x >= 0,
        ensures
            res@ == x,
    {
        Lit(x)
    }

    /// The 0-based variable index.
    pub fn var(self) -> (res: i32)
        ensures
            res == self@ >> 1i32,
    {
        self.0 >> 1
    }

    /// `0` when the literal is positive, `1` when it is negative.
    pub fn sign(self) -> (res: i32)
        ensures
            res == self@ & 1i32,
    {
        self.0 & 1
    }

    /// The complementary literal.
    pub fn negate(self) -> (res: Lit)
        ensures
            res@ == self@ ^ 1i32,
            res@ >> 1i32 == self@ >> 1i32,
    {
        let x = self.0;
        assert(((x ^ 1i32) >> 1i32) == (x >> 1i32)) by (bit_vector);
        Lit(x ^ 1)
    }

    /// The C code of the literal.
    pub fn to_c(self) -> (res: i32)
        ensures
            res == self@,
    {
        self.0
    }

    /// The literal with C code `lit`.
    pub fn from_c(lit: i32) -> (res: Lit)
        ensures
            res@ == lit,
    {
        Lit(lit)
    }
}

/// MiniSat variable as a C `int`.
#[derive(Debug, Copy, Clone)]
pub struct Var(i32);

impl View for Var {
    type V = i32;

    closed spec fn view(&self) -> i32 {
        self.0
    }
}

impl Var {
    /// The variable with C code `var`.
    pub fn new(var: i32) -> (res: Self)
        ensures
            res@ == var,
    {
        Var(var)
    }

    /// The C code of the variable.
    pub fn to_c(self) -> (res: i32)
        ensures
            res == self@,
    {
        self.0
    }
}

} // verus!
