use vstd::prelude::*;

verus! {

/// A lifted Boolean: `True`, `False`, or `Undef` (unassigned).
#[derive(Debug, Copy, Clone, Eq, PartialEq, Structural)]
pub enum LBool {
    False,
    True,
    Undef,
}

/// The lifted value of a plain Boolean.
pub open spec fn lbool_of(b: bool) -> LBool {
    if b {
        LBool::True
    } else {
        LBool::False
    }
}

/// `v ^ b`: flips a defined value when `b` holds; `Undef` stays `Undef`.
pub open spec fn lbool_xor(v: LBool, b: bool) -> LBool {
    match v {
        LBool::Undef => LBool::Undef,
        LBool::True => lbool_of(!b),
        LBool::False => lbool_of(b),
    }
}

impl LBool {
    /// Whether the value is `Undef`.
    pub fn is_undef(self) -> (res: bool)
        ensures
            res == (self == LBool::Undef),
    {
        match self {
            LBool::Undef => true,
            _ => false,
        }
    }
}

impl From<bool> for LBool {
    fn from(b: bool) -> (res: Self) {
        if b {
            LBool::True
        } else {
            LBool::False
        }
    }
}

impl vstd::std_specs::convert::FromSpecImpl<bool> for LBool {
    open spec fn obeys_from_spec() -> bool {
        true
    }

    open spec fn from_spec(b: bool) -> LBool {
        lbool_of(b)
    }
}

impl core::ops::BitXor<bool> for LBool {
    type Output = LBool;

    fn bitxor(self, rhs: bool) -> (res: LBool) {
        match self {
            LBool::Undef => LBool::Undef,
            LBool::True => if rhs {
                LBool::False
            } else {
                LBool::True
            },
            LBool::False => if rhs {
                LBool::True
            } else {
                LBool::False
            },
        }
    }
}

impl vstd::std_specs::ops::BitXorSpecImpl<bool> for LBool {
    open spec fn obeys_bitxor_spec() -> bool {
        true
    }

    open spec fn bitxor_req(self, rhs: bool) -> bool {
        true
    }

    open spec fn bitxor_spec(self, rhs: bool) -> LBool {
        lbool_xor(self, rhs)
    }
}

/// Xor-ing twice with the same Boolean gives back the value.
pub proof fn lemma_lbool_xor_involutive(v: LBool, b: bool)
    ensures
        lbool_xor(lbool_xor(v, b), b) == v,
{
}

/// Xor-ing a lifted Boolean with `b` is the lift of the Boolean xor.
pub proof fn lemma_lbool_xor_of_bool(a: bool, b: bool)
    ensures
        lbool_xor(lbool_of(a), b) == lbool_of(a != b),
{
}

} // verus!
