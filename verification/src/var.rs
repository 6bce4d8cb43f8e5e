use vstd::prelude::*;

verus! {

/// A propositional variable, stored as a 0-based index.
///
/// Externally (DIMACS), variables are 1-based: `to_external` adds one,
/// `from_external` subtracts it.
#[derive(Debug, Copy, Clone, Eq, PartialEq, Hash, Ord, PartialOrd, Structural)]
pub struct Var(u32);

impl View for Var {
    type V = u32;

    closed spec fn view(&self) -> u32 {
        self.0
    }
}

impl Var {
    /// The variable with the given 0-based index.
    pub fn new(var: u32) -> (res: Self)
        ensures
            res@ == var,
    {
        Var(var)
    }

    /// The 0-based index of the variable.
    pub fn inner(self) -> (res: u32)
        ensures
            res == self@,
    {
        self.0
    }

    /// The 0-based index of the variable, as `usize`.
    pub fn index(self) -> (res: usize)
        ensures
            res == self@,
    {
        self.0 as usize
    }

    /// The 1-based (DIMACS) number of the variable.
    pub fn to_external(self) -> (res: u32)
        requires
            self@ < u32::MAX,
        ensures
            res == self@ + 1,
    {
        self.0 + 1
    }

    /// The variable whose 1-based (DIMACS) number is `var`.
    pub fn from_external(var: u32) -> (res: Self)
        requires
            var != 0,
        ensures
            res@ == var - 1,
    {
        Var::new(var - 1)
    }

    /// The variable with the given 0-based index (spec form).
    pub closed spec fn spec_from_index(var: u32) -> Var {
        Var(var)
    }

    /// Two variables are equal exactly when their indices are.
    pub proof fn lemma_view_injective(a: Var, b: Var)
        ensures
            (a@ == b@) <==> (a == b),
    {
    }
}

/// The index of `Var::spec_from_index(v)` is `v`.
pub broadcast proof fn lemma_var_from_index_view(var: u32)
    ensures
        #[trigger] Var::spec_from_index(var)@ == var,
{
}

/// Converting a variable to its external number and back gives the same variable.
pub proof fn lemma_var_external_roundtrip(v: Var)
    requires
        v@ < u32::MAX,
    ensures
        v@ + 1 != 0,
        (v@ + 1) - 1 == v@,
{
}

} // verus!
